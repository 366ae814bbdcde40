//! Whole pages around the keypad: the page that previews the AO3-ready
//! markup, and the self-contained page with its own style sheet.
use vstd::prelude::*;

use crate::keypad::{
    emit_keypad_layer_html, generate_keypad_theme_css, layer_html, theme_css, Passcode, Theme,
    HTML_PRELUDE,
};
use crate::text::{replace, replace_str};

verus! {

/// The preview page; `@@@` stands for the keypad markup.
pub const PAGE_TEMPLATE: &'static str = r##"<!DOCTYPE html><html lang="en"><head><meta charset="UTF-8"><meta name="viewport" content="width=device-width, initial-scale=1.0"><title>Document</title><link rel="stylesheet" href="style.css"></head><body>
@@@
</body></html>"##;

/// Closing markup of the keypad container on the self-contained page.
pub const STANDALONE_HTML_EPILOGUE: &'static str = r##"
</div>
"##;

/// The fixed rules of the self-contained page's style sheet; `***` stands
/// for the passcode.
pub const STANDALONE_CSS_PRELUDE: &'static str = r##"
.kp {
    display: grid;
    grid-template-columns: min-content min-content min-content;
}

.bt {
    width: 1.2em;
    height: 1.2em;
    font-size: xx-large;
    padding: 10px;
    margin: 3px;
    display: inline-block;
    background-color: white;
    display: flex;
    justify-content: center;
    align-items: center;
    text-decoration: none;
    font-family: 'Courier New', Courier, monospace;
    font-weight: 900;
    color: black;
}

.bt:nth-child(1)::before {
    content: "1";
}
.bt:nth-child(2)::before {
    content: "2";
}
.bt:nth-child(3)::before {
    content: "3";
}
.bt:nth-child(4)::before {
    content: "4";
}
.bt:nth-child(5)::before {
    content: "5";
}
.bt:nth-child(6)::before {
    content: "6";
}
.bt:nth-child(7)::before {
    content: "7";
}
.bt:nth-child(8)::before {
    content: "8";
}
.bt:nth-child(9)::before {
    content: "9";
}

.bt:hover {
    filter: brightness(97%);
}
.bt:focus {
    filter: brightness(85%);
}

.inva {
    display:none;
}
.invap {
    display:none;
}
.kp {
    display: none;
}
.kpmcon:not(:has(a.kpnfin:target)) .kp_ {
    display: grid;
}

.invap:has(.inva:target) + .kp {
    display: grid;
}
.kpmcon:not(:has(#c***:target)):has(.kpfin:target)::after {
    content: "Incorrect Passcode";
    color: red;
}
"##;

/// The self-contained page; `@@@` stands for the keypad markup.
pub const STANDALONE_HTML_TEMPLATE: &'static str = r##"<!DOCTYPE html><html lang="en"><head><meta charset="UTF-8"><meta name="viewport" content="width=device-width, initial-scale=1.0"><title>Document</title><link rel="stylesheet" href="style.css"></head><body>
@@@
<details class="secret">
<summary></summary>
<h1>my secret header</h1>
</details>
</body></html>"##;

/// The self-contained style sheet; `@@@` stands for the keypad rules.
pub const STANDALONE_CSS_TEMPLATE: &'static str = r##"
@@@
.secret {
	display: none;
}
.kpmcon:has(#c124:target)~.secret {
	display: block;
}
.secret[open] {
	display: block;
}
.secret summary::marker {
	content: "🔑 click to open";
}
.secret summary:hover {
	color: green;
}
.secret[open] summary::marker {
	content: "🔑 click to close";
}
.secret[open] summary:hover {
	color: red;
}
.kpmcon:has(~.secret[open]) {
	display: none;
}
"##;

/// The preview page around the keypad markup `html`.
pub fn page_html(html: &str) -> (r: String)
    ensures
        r@ == replace(PAGE_TEMPLATE@, "@@@"@, html@),
{
    proof {
        reveal_strlit("@@@");
    }
    replace_str(PAGE_TEMPLATE, "@@@", html)
}

/// The keypad markup of the self-contained page, for a passcode of `depth`
/// digits.
pub fn generate_standalone_html(depth: usize) -> (r: String)
    ensures
        r@ == HTML_PRELUDE@ + layer_html(depth as nat, Seq::empty()) + STANDALONE_HTML_EPILOGUE@,
{
    let mut html = String::new();
    html.append(HTML_PRELUDE);
    let start = String::new();
    emit_keypad_layer_html(depth, &mut html, &start);
    html.append(STANDALONE_HTML_EPILOGUE);
    html
}

/// The keypad rules of the self-contained page for `theme`.
pub fn generate_standalone_css(theme: &Theme) -> (r: String)
    ensures
        r@ == STANDALONE_CSS_PRELUDE@ + theme_css(theme@),
{
    let mut css = String::new();
    css.append(STANDALONE_CSS_PRELUDE);
    generate_keypad_theme_css(theme, &mut css);
    css
}

/// The self-contained page and its style sheet for `passcode` and `theme`:
/// the keypad fills the templates, and the passcode fills every `***`.
pub fn standalone_pages(passcode: &Passcode, theme: &Theme) -> (r: (String, String))
    ensures
        r.0@ == replace(
            STANDALONE_HTML_TEMPLATE@,
            "@@@"@,
            HTML_PRELUDE@ + layer_html(passcode@.len(), Seq::empty()) + STANDALONE_HTML_EPILOGUE@,
        ),
        r.1@ == replace(
            replace(STANDALONE_CSS_TEMPLATE@, "@@@"@, STANDALONE_CSS_PRELUDE@ + theme_css(theme@)),
            "***"@,
            passcode@,
        ),
{
    proof {
        reveal_strlit("@@@");
        reveal_strlit("***");
    }
    let digits = passcode.get();
    let html = generate_standalone_html(digits.unicode_len());
    let page = replace_str(STANDALONE_HTML_TEMPLATE, "@@@", html.as_str());
    let css = generate_standalone_css(theme);
    let sheet = replace_str(STANDALONE_CSS_TEMPLATE, "@@@", css.as_str());
    let sheet = replace_str(sheet.as_str(), "***", digits);
    (page, sheet)
}

} // verus!
