//! The keypad itself: passcodes, themes, and the HTML and CSS that make a
//! passcode-locked keypad out of anchors and `:target` selectors.
use vstd::prelude::*;
use vstd::string::StringSliceAdditionalSpecFns;

use crate::text::{
    chars_of, decimal, digit_char, digit_to_char, push_decimal, replace, replace_str, str_eq, trim,
    trim_str,
};

verus! {

/// Opening markup of the keypad container.
pub const HTML_PRELUDE: &'static str = r##"
<div class="kpmcon">
<a href="#r_">reset</a>
"##;

/// Closing markup of the keypad container, followed by the hidden secret.
pub const HTML_EPILOGUE: &'static str = r##"
</div>
<details class="secret">
<summary id="this-element-is-important-do-not-delete-it"></summary>
<h1 id="put-your-own-content-here">my secret header</h1>
</details>
"##;

/// The fixed rules of the keypad's style sheet before the rule that reveals
/// the secret; `***` stands for the passcode.
pub const CSS_PRELUDE: &'static str = r##"
.kp {
    display: grid;
    grid-template-columns: min-content min-content min-content;
}
.bt {
    width: 1.2em;
    height: 1.2em;
    font-size: xx-large;
    padding: 10px;
    margin: 3px;
    display: inline-block;
    background-color: white;
    display: flex;
    justify-content: center;
    align-items: center;
    text-decoration: none;
    font-family: 'Courier New', Courier, monospace;
    font-weight: 900;
    color: black;
}
.bt:nth-child(1)::before {
    content: "1";
}
.bt:nth-child(2)::before {
    content: "2";
}
.bt:nth-child(3)::before {
    content: "3";
}
.bt:nth-child(4)::before {
    content: "4";
}
.bt:nth-child(5)::before {
    content: "5";
}
.bt:nth-child(6)::before {
    content: "6";
}
.bt:nth-child(7)::before {
    content: "7";
}
.bt:nth-child(8)::before {
    content: "8";
}
.bt:nth-child(9)::before {
    content: "9";
}
.bt:hover {
    filter: brightness(97%);
}
.bt:focus {
    filter: brightness(85%);
}
.inva {
    display:none;
}
.invap {
    display:none;
}
.kp {
    display: none;
}
.kpmcon:not(:has(a.kpnfin:target)) .kp_ {
    display: grid;
}
.invap:has(.inva:target) + .kp {
    display: grid;
}
.kpmcon:not(:has(#c***:target)):has(.kpfin:target)::after {
    content: "Incorrect Passcode";
    color: red;
}
.secret {
    display: none;
}
"##;

/// The rule that shows the secret once the passcode's anchor is the target.
pub const CSS_SECRET_RULE: &'static str = ".kpmcon:has(#c***:target)~.secret {\n    display: block;\n}";

/// The fixed rules after the one that reveals the secret.
pub const CSS_EPILOGUE: &'static str = r##"
.secret[open] {
    display: block;
}
.secret summary::after {
    content: "🔑 click to open";
}
.secret summary:hover {
    color: green;
}
.secret[open] summary::after {
    content: "🔑 click to close";
}
.secret[open] summary:hover {
    color: red;
}
.kpmcon:has(~.secret[open]) {
    display: none;
}
details.secret summary::-webkit-details-marker, details.secret summary::marker {
    display: none;
    content: "";
}
"##;

/// A passcode has two to four characters, each a digit from 1 to 9.
pub open spec fn valid_passcode(s: Seq<char>) -> bool {
    &&& 2 <= s.len() <= 4
    &&& only_keys(s)
}

/// Every character of `s` is one of the digits 1 to 9 on the keypad.
pub open spec fn only_keys(s: Seq<char>) -> bool {
    forall|i: int| 0 <= i < s.len() ==> '1' <= #[trigger] s[i] <= '9'
}

/// The message with which `Passcode::new` refuses `s`.
pub open spec fn passcode_error(s: Seq<char>) -> Seq<char> {
    if !only_keys(s) {
        "'"@ + s + "' is not a valid passcode. please use only numbers 1-9"@
    } else if s.len() <= 1 {
        "please use more than 1 digit"@
    } else {
        "please do not use more than 4 digits"@
    }
}

/// A checked passcode: two to four digits from 1 to 9.
pub struct Passcode(String);

impl Passcode {
    #[verifier::type_invariant]
    closed spec fn inv(self) -> bool {
        valid_passcode(self.0@)
    }
}

impl View for Passcode {
    type V = Seq<char>;

    closed spec fn view(&self) -> Seq<char> {
        self.0@
    }
}

impl Passcode {
    /// Checks `x` and makes a passcode of it.
    pub fn new(x: &str) -> (r: Result<Passcode, String>)
        ensures
            r matches Ok(p) ==> valid_passcode(x@) && p@ == x@,
            r matches Err(e) ==> !valid_passcode(x@) && e@ == passcode_error(x@),
    {
        let v = chars_of(x);
        let n = v.len();
        let mut i: usize = 0;
        while i < n
            invariant
                i <= n == v@.len(),
                v@ == x@,
                forall|k: int| 0 <= k < i ==> '1' <= #[trigger] v@[k] <= '9',
            decreases n - i,
        {
            let c = v[i];
            if !('1' <= c && c <= '9') {
                let mut e = String::from_str("'");
                e.append(x);
                e.append("' is not a valid passcode. please use only numbers 1-9");
                return Err(e);
            }
            i += 1;
        }
        if n <= 1 {
            return Err(String::from_str("please use more than 1 digit"));
        }
        if n > 4 {
            return Err(String::from_str("please do not use more than 4 digits"));
        }
        Ok(Passcode(String::from_str(x)))
    }

    /// The digits of the passcode; they always form a valid passcode.
    pub fn get(&self) -> (r: &str)
        ensures
            r@ == self@,
            valid_passcode(self@),
    {
        proof {
            use_type_invariant(self);
        }
        self.0.as_str()
    }
}

/// Whether `c` is a decimal digit (`char::to_digit(10)` gives a value).
pub open spec fn is_digit(c: char) -> bool {
    '0' <= c <= '9'
}

/// The value of the decimal digit `c`.
pub open spec fn digit_value(c: char) -> nat {
    (c as int - '0' as int) as nat
}

/// Every character of every pattern row is a digit that names one of the
/// `ncolors` colors.
pub open spec fn pattern_fits(pattern: Seq<Seq<char>>, ncolors: nat) -> bool {
    forall|r: int, i: int|
        0 <= r < pattern.len() && 0 <= i < pattern[r].len() ==> {
            &&& is_digit(#[trigger] pattern[r][i])
            &&& digit_value(pattern[r][i]) < ncolors
        }
}

/// What a theme holds, as plain sequences.
pub struct ThemeView {
    pub border: Seq<char>,
    pub colors: Seq<Seq<char>>,
    pub pattern: Seq<Seq<char>>,
}

/// The look of a keypad: the buttons' border, a list of color declarations,
/// and three rows whose digits pick the color of each button.
pub struct Theme {
    border: String,
    colors: Vec<String>,
    pattern: [String; 3],
}

impl Theme {
    #[verifier::type_invariant]
    closed spec fn inv(self) -> bool {
        pattern_fits(self.pattern@.map_values(|p: String| p@), self.colors@.len())
    }
}

impl View for Theme {
    type V = ThemeView;

    closed spec fn view(&self) -> ThemeView {
        ThemeView {
            border: self.border@,
            colors: self.colors@.map_values(|c: String| c@),
            pattern: self.pattern@.map_values(|p: String| p@),
        }
    }
}

impl Clone for Theme {
    fn clone(&self) -> (r: Self)
        ensures
            r@ == self@,
    {
        proof {
            use_type_invariant(self);
        }
        let colors = self.colors.clone();
        assert(colors@ =~= self.colors@);
        let pattern = [self.pattern[0].clone(), self.pattern[1].clone(), self.pattern[2].clone()];
        assert(pattern@ =~= self.pattern@);
        Theme { border: self.border.clone(), colors, pattern }
    }
}

/// The message with which `Theme::new` refuses a pattern.
pub open spec fn theme_error() -> Seq<char> {
    "malformed pattern in theme"@
}

impl Theme {
    /// Makes a theme, refusing it when a pattern character is not a digit or
    /// names no color.
    pub fn new(border: String, colors: Vec<String>, pattern: [String; 3]) -> (r: Result<Theme, String>)
        ensures
            r is Ok <==> pattern_fits(pattern@.map_values(|p: String| p@), colors@.len()),
            r matches Ok(t) ==> t@ == (ThemeView {
                border: border@,
                colors: colors@.map_values(|c: String| c@),
                pattern: pattern@.map_values(|p: String| p@),
            }),
            r matches Err(e) ==> e@ == theme_error(),
    {
        let ghost pv = pattern@.map_values(|p: String| p@);
        let ncolors = colors.len();
        let mut r: usize = 0;
        while r < 3
            invariant
                r <= 3,
                ncolors == colors@.len(),
                pv == pattern@.map_values(|p: String| p@),
                pv.len() == 3,
                forall|q: int, i: int|
                    0 <= q < r && 0 <= i < pv[q].len() ==> {
                        &&& is_digit(#[trigger] pv[q][i])
                        &&& digit_value(pv[q][i]) < ncolors
                    },
            decreases 3 - r,
        {
            let row = chars_of(pattern[r].as_str());
            assert(row@ == pv[r as int]);
            let mut i: usize = 0;
            while i < row.len()
                invariant
                    r < 3,
                    pv.len() == 3,
                    pv == pattern@.map_values(|p: String| p@),
                    i <= row@.len(),
                    row@ == pv[r as int],
                    ncolors == colors@.len(),
                    forall|k: int|
                        0 <= k < i ==> {
                            &&& is_digit(#[trigger] row@[k])
                            &&& digit_value(row@[k]) < ncolors
                        },
                decreases row@.len() - i,
            {
                let c = row[i];
                assert(pv[r as int][i as int] == c);
                if !('0' <= c && c <= '9') {
                    return Err(String::from_str("malformed pattern in theme"));
                }
                let d = (c as u32) - ('0' as u32);
                if d as usize >= ncolors {
                    return Err(String::from_str("malformed pattern in theme"));
                }
                i += 1;
            }
            r += 1;
        }
        Ok(Theme { border, colors, pattern })
    }
}

/// The settings a keypad is generated from.
pub struct Config {
    pub passcode: Passcode,
    pub theme: Theme,
}

/// The class of the anchor reached after entering the digits `l`: `kpfin`
/// once as many digits as the passcode has are entered, `kpnfin` before.
pub open spec fn anchor_class(depth: nat, l: Seq<char>) -> Seq<char> {
    if l.len() == depth {
        "kpfin"@
    } else {
        "kpnfin"@
    }
}

/// The hidden anchor `c{l}` that the button leading to the digits `l` targets.
pub open spec fn anchor_html(depth: nat, l: Seq<char>) -> Seq<char> {
    "<p class=\"invap\"><a class=\"inva "@ + anchor_class(depth, l) + "\" name=\"c"@ + l
        + "\" id=\"c"@ + l + "\"></a></p>"@
}

/// The opening tag of the keypad shown after the digits `l` were entered.
pub open spec fn layer_open(l: Seq<char>) -> Seq<char> {
    "<p class=\"kp kp_"@ + l + "\">"@
}

/// The button that leads from the digits `l` to the digits `next`.
pub open spec fn button_html(next: Seq<char>) -> Seq<char> {
    "<a class=\"bt\" href=\"#c"@ + next + "\"></a>"@
}

/// The first `k` buttons of the keypad shown after the digits `l`.
pub open spec fn buttons(l: Seq<char>, k: nat) -> Seq<char>
    decreases k,
{
    if k == 0 {
        Seq::empty()
    } else {
        buttons(l, (k - 1) as nat) + button_html(l.push(digit_char(k)))
    }
}

/// The keypad shown after the digits `l` were entered, followed by everything
/// reachable from it, for a passcode of `depth` digits.
pub open spec fn layer_html(depth: nat, l: Seq<char>) -> Seq<char>
    decreases depth - l.len(), 10int,
{
    if l.len() >= depth {
        Seq::empty()
    } else {
        layer_open(l) + buttons(l, 9) + "</p>"@ + subtrees(depth, l, 9)
    }
}

/// For the first `k` digits `d`: the anchor of `l` followed by `d`, and the
/// keypad reachable from there.
pub open spec fn subtrees(depth: nat, l: Seq<char>, k: nat) -> Seq<char>
    decreases depth - l.len(), k as int,
{
    if k == 0 || k > 9 || l.len() >= depth {
        Seq::empty()
    } else {
        subtrees(depth, l, (k - 1) as nat) + anchor_html(depth, l.push(digit_char(k)))
            + layer_html(depth, l.push(digit_char(k)))
    }
}

/// The markup that `generate_keypad_html` produces for a passcode of `depth` digits.
pub open spec fn keypad_html(depth: nat) -> Seq<char> {
    trim(HTML_PRELUDE@ + layer_html(depth, Seq::empty()) + HTML_EPILOGUE@)
}

/// Appends the hidden anchor reached after entering the digits `layers`.
fn emit_keypad_layer_anchor_html(depth: usize, buf: &mut String, layers: &String)
    requires
        layers@.len() <= depth,
    ensures
        final(buf)@ == old(buf)@ + anchor_html(depth as nat, layers@),
{
    let len = layers.as_str().unicode_len();
    let class = if len == depth {
        "kpfin"
    } else {
        "kpnfin"
    };
    buf.append("<p class=\"invap\"><a class=\"inva ");
    buf.append(class);
    buf.append("\" name=\"c");
    buf.append(layers.as_str());
    buf.append("\" id=\"c");
    buf.append(layers.as_str());
    buf.append("\"></a></p>");
    assert(final(buf)@ =~= old(buf)@ + anchor_html(depth as nat, layers@));
}

/// Appends the keypad shown after entering the digits `layers`, and
/// everything reachable from it.
pub(crate) fn emit_keypad_layer_html(depth: usize, buf: &mut String, layers: &String)
    requires
        layers@.len() <= depth,
    ensures
        final(buf)@ == old(buf)@ + layer_html(depth as nat, layers@),
    decreases depth - layers@.len(),
{
    let ghost b0 = buf@;
    let ghost l = layers@;
    let len = layers.as_str().unicode_len();
    if len == depth {
        assert(buf@ =~= b0 + layer_html(depth as nat, l));
        return;
    }
    buf.append("<p class=\"kp kp_");
    buf.append(layers.as_str());
    buf.append("\">");
    assert(buf@ =~= b0 + layer_open(l) + buttons(l, 0));
    let mut i: u8 = 1;
    while i <= 9
        invariant
            1 <= i <= 10,
            l == layers@,
            l.len() < depth,
            buf@ == b0 + layer_open(l) + buttons(l, (i - 1) as nat),
        decreases 10 - i,
    {
        let mut next = layers.clone();
        next.push(digit_to_char(i));
        let ghost before = buf@;
        buf.append("<a class=\"bt\" href=\"#c");
        buf.append(next.as_str());
        buf.append("\"></a>");
        assert(buf@ =~= before + button_html(l.push(digit_char(i as nat))));
        assert(buf@ =~= b0 + layer_open(l) + buttons(l, i as nat));
        i += 1;
    }
    buf.append("</p>");
    let ghost head = b0 + layer_open(l) + buttons(l, 9) + "</p>"@;
    assert(buf@ =~= head + subtrees(depth as nat, l, 0));
    i = 1;
    while i <= 9
        invariant
            1 <= i <= 10,
            l == layers@,
            l.len() < depth,
            buf@ == head + subtrees(depth as nat, l, (i - 1) as nat),
        decreases 10 - i,
    {
        let mut next = layers.clone();
        next.push(digit_to_char(i));
        let ghost before = buf@;
        emit_keypad_layer_anchor_html(depth, buf, &next);
        emit_keypad_layer_html(depth, buf, &next);
        let ghost n = l.push(digit_char(i as nat));
        assert(buf@ =~= head + subtrees(depth as nat, l, i as nat)) by {
            assert(buf@ =~= before + anchor_html(depth as nat, n) + layer_html(depth as nat, n));
        }
        i += 1;
    }
    assert(buf@ =~= b0 + layer_html(depth as nat, l));
}

/// The keypad markup for `config`: one keypad per entered prefix of up to
/// as many digits as the passcode has, each button leading to the anchor of
/// the prefix one digit longer.
pub fn generate_keypad_html(config: &Config) -> (r: String)
    ensures
        r@ == keypad_html(config.passcode@.len()),
{
    let depth = config.passcode.get().unicode_len();
    let mut html = String::new();
    html.append(HTML_PRELUDE);
    let start = String::new();
    emit_keypad_layer_html(depth, &mut html, &start);
    html.append(HTML_EPILOGUE);
    assert(html@ =~= HTML_PRELUDE@ + layer_html(depth as nat, Seq::empty()) + HTML_EPILOGUE@);
    trim_str(html.as_str())
}

/// The rule that gives every button its border; an empty border stands for
/// `1px solid black`.
pub open spec fn border_rule(border: Seq<char>) -> Seq<char> {
    ".bt {\n    border: "@ + (if border.len() == 0 {
        "1px solid black"@
    } else {
        border
    }) + ";\n}\n"@
}

/// A color declaration as it is written into a rule: one declaration per
/// line, without surrounding whitespace.
pub open spec fn color_content(c: Seq<char>) -> Seq<char> {
    trim(replace(c, ";"@, ";\n"@))
}

/// The rule that styles the `p`-th button with `content`.
pub open spec fn cell_rule(p: nat, content: Seq<char>) -> Seq<char> {
    ".bt:nth-child("@ + decimal(p) + ") {\n    "@ + content + ";\n}\n"@
}

/// The rules for the first `k` buttons of pattern row `row`: the button in
/// column `c` is the `3 * row + c + 1`-th.
pub open spec fn row_rules(t: ThemeView, row: nat, k: nat) -> Seq<char>
    decreases k,
{
    if k == 0 {
        Seq::empty()
    } else {
        row_rules(t, row, (k - 1) as nat) + cell_rule(
            3 * row + k,
            color_content(t.colors[digit_value(t.pattern[row as int][k - 1]) as int]),
        )
    }
}

/// The rules for the first `r` pattern rows.
pub open spec fn rows_rules(t: ThemeView, r: nat) -> Seq<char>
    decreases r,
{
    if r == 0 {
        Seq::empty()
    } else {
        rows_rules(t, (r - 1) as nat) + row_rules(t, (r - 1) as nat, t.pattern[r - 1].len())
    }
}

/// The style rules that a theme contributes.
pub open spec fn theme_css(t: ThemeView) -> Seq<char> {
    border_rule(t.border) + rows_rules(t, 3)
}

/// The style sheet that `generate_keypad_css` produces.
pub open spec fn keypad_css(passcode: Seq<char>, t: ThemeView) -> Seq<char> {
    replace(CSS_PRELUDE@ + CSS_SECRET_RULE@ + CSS_EPILOGUE@ + theme_css(t), "***"@, passcode)
}

/// Appends the style rules of `theme`.
pub(crate) fn generate_keypad_theme_css(theme: &Theme, buf: &mut String)
    ensures
        final(buf)@ == old(buf)@ + theme_css(theme@),
{
    proof {
        use_type_invariant(theme);
    }
    let ghost t = theme@;
    let ghost b0 = buf@;
    buf.append(".bt {\n    border: ");
    if theme.border.as_str().is_empty() {
        buf.append("1px solid black");
    } else {
        buf.append(theme.border.as_str());
    }
    buf.append(";\n}\n");
    assert(buf@ =~= b0 + border_rule(t.border) + rows_rules(t, 0));
    let ncolors = theme.colors.len();
    let mut colors: Vec<String> = Vec::new();
    let mut j: usize = 0;
    while j < ncolors
        invariant
            j <= ncolors == t.colors.len(),
            t == theme@,
            colors@.len() == j,
            forall|k: int| 0 <= k < j ==> #[trigger] colors@[k]@ == color_content(t.colors[k]),
        decreases ncolors - j,
    {
        proof {
            reveal_strlit(";");
        }
        let replaced = replace_str(theme.colors[j].as_str(), ";", ";\n");
        colors.push(trim_str(replaced.as_str()));
        j += 1;
    }
    let mut row: usize = 0;
    while row < 3
        invariant
            row <= 3,
            t == theme@,
            t.pattern.len() == 3,
            pattern_fits(t.pattern, t.colors.len()),
            colors@.len() == t.colors.len(),
            forall|k: int| 0 <= k < colors@.len() ==> #[trigger] colors@[k]@ == color_content(t.colors[k]),
            buf@ == b0 + border_rule(t.border) + rows_rules(t, row as nat),
        decreases 3 - row,
    {
        let cells = chars_of(theme.pattern[row].as_str());
        let ghost base = buf@;
        let mut col: usize = 0;
        while col < cells.len()
            invariant
                row < 3,
                t == theme@,
                t.pattern.len() == 3,
                cells@ == t.pattern[row as int],
                pattern_fits(t.pattern, t.colors.len()),
                colors@.len() == t.colors.len(),
                forall|k: int| 0 <= k < colors@.len() ==> #[trigger] colors@[k]@ == color_content(t.colors[k]),
                col <= cells@.len(),
                buf@ == base + row_rules(t, row as nat, col as nat),
            decreases cells@.len() - col,
        {
            let c = cells[col];
            assert(is_digit(t.pattern[row as int][col as int]));
            let d = ((c as u32) - ('0' as u32)) as usize;
            let p: u128 = (row as u128) * 3 + (col as u128) + 1;
            let ghost before = buf@;
            buf.append(".bt:nth-child(");
            push_decimal(buf, p);
            buf.append(") {\n    ");
            buf.append(colors[d].as_str());
            buf.append(";\n}\n");
            assert(buf@ =~= before + cell_rule(p as nat, colors@[d as int]@));
            assert(buf@ =~= base + row_rules(t, row as nat, (col + 1) as nat));
            col += 1;
        }
        assert(buf@ =~= b0 + border_rule(t.border) + rows_rules(t, (row + 1) as nat));
        row += 1;
    }
    assert(buf@ =~= b0 + theme_css(t));
}

/// The keypad's style sheet for `config`: the fixed rules, then the theme's,
/// with every `***` replaced by the passcode.
pub fn generate_keypad_css(config: &Config) -> (r: String)
    ensures
        r@ == keypad_css(config.passcode@, config.theme@),
{
    proof {
        reveal_strlit("***");
    }
    let mut css = String::new();
    css.append(CSS_PRELUDE);
    css.append(CSS_SECRET_RULE);
    css.append(CSS_EPILOGUE);
    generate_keypad_theme_css(&config.theme, &mut css);
    assert(css@ =~= CSS_PRELUDE@ + CSS_SECRET_RULE@ + CSS_EPILOGUE@ + theme_css(config.theme@));
    replace_str(css.as_str(), "***", config.passcode.get())
}

/// No two entries carry the same name.
pub open spec fn names_distinct(e: Seq<(String, Theme)>) -> bool {
    forall|i: int, j: int| 0 <= i < j < e.len() ==> (#[trigger] e[i]).0@ != (#[trigger] e[j]).0@
}

/// Whether some entry carries the name `k`.
pub open spec fn has_name(e: Seq<(String, Theme)>, k: Seq<char>) -> bool {
    exists|i: int| 0 <= i < e.len() && (#[trigger] e[i]).0@ == k
}

/// The themes of a list of named entries, by name.
pub open spec fn entries_map(e: Seq<(String, Theme)>) -> Map<Seq<char>, ThemeView> {
    Map::new(
        |k: Seq<char>| has_name(e, k),
        |k: Seq<char>| e[choose|i: int| 0 <= i < e.len() && (#[trigger] e[i]).0@ == k].1@,
    )
}

/// In a list with distinct names, the theme under an entry's name is that
/// entry's theme.
proof fn lemma_entry_in_map(e: Seq<(String, Theme)>, i: int)
    requires
        names_distinct(e),
        0 <= i < e.len(),
    ensures
        entries_map(e).contains_key(e[i].0@),
        entries_map(e)[e[i].0@] == e[i].1@,
{
    let k = e[i].0@;
    assert(has_name(e, k));
    let j = choose|j: int| 0 <= j < e.len() && (#[trigger] e[j]).0@ == k;
    if j < i {
        assert(e[j].0@ != e[i].0@);
    } else if i < j {
        assert(e[i].0@ != e[j].0@);
    }
}

/// A table of named themes, viewed as a map from name to theme. It is held
/// as a list of entries whose names are distinct: vstd gives a `HashMap` a
/// model of its contents only for keys whose hashing it knows (integers and
/// `bool`), not for `String` names.
pub struct Themes {
    entries: Vec<(String, Theme)>,
}

impl Themes {
    #[verifier::type_invariant]
    closed spec fn inv(self) -> bool {
        names_distinct(self.entries@)
    }
}

impl View for Themes {
    type V = Map<Seq<char>, ThemeView>;

    closed spec fn view(&self) -> Map<Seq<char>, ThemeView> {
        entries_map(self.entries@)
    }
}

impl Themes {
    /// A table with no theme.
    pub fn new() -> (r: Themes)
        ensures
            r@ == Map::<Seq<char>, ThemeView>::empty(),
    {
        let r = Themes { entries: Vec::new() };
        assert(r@ =~= Map::<Seq<char>, ThemeView>::empty());
        r
    }

    /// The position of the entry named `name`, if there is one.
    fn find(&self, name: &str) -> (r: Option<usize>)
        ensures
            r matches Some(i) ==> i < self.entries@.len() && self.entries@[i as int].0@ == name@,
            r is None ==> !has_name(self.entries@, name@),
    {
        let mut i: usize = 0;
        while i < self.entries.len()
            invariant
                i <= self.entries@.len(),
                forall|j: int| 0 <= j < i ==> (#[trigger] self.entries@[j]).0@ != name@,
            decreases self.entries@.len() - i,
        {
            if str_eq(self.entries[i].0.as_str(), name) {
                return Some(i);
            }
            i += 1;
        }
        None
    }

    /// Puts `theme` under `name`, in place of the theme that was there.
    pub fn insert(&mut self, name: String, theme: Theme)
        ensures
            final(self)@ == old(self)@.insert(name@, theme@),
    {
        proof {
            use_type_invariant(&*self);
        }
        let ghost e0 = self.entries@;
        let found = self.find(name.as_str());
        let ghost k = name@;
        let ghost v = theme@;
        let mut entries = Vec::new();
        std::mem::swap(&mut entries, &mut self.entries);
        match found {
            Some(i) => {
                entries.set(i, (name, theme));
            },
            None => {
                entries.push((name, theme));
            },
        }
        let ghost e1 = entries@;
        assert(names_distinct(e1));
        assert(entries_map(e1) =~= entries_map(e0).insert(k, v)) by {
            assert forall|q: Seq<char>| #[trigger] has_name(e1, q) <==> (has_name(e0, q) || q == k) by {
                if has_name(e0, q) && q != k {
                    let j = choose|j: int| 0 <= j < e0.len() && (#[trigger] e0[j]).0@ == q;
                    assert(e1[j].0@ == q);
                }
                if has_name(e1, q) && q != k {
                    let j = choose|j: int| 0 <= j < e1.len() && (#[trigger] e1[j]).0@ == q;
                    assert(e0[j].0@ == q);
                }
                if q == k {
                    match found {
                        Some(i) => assert(e1[i as int].0@ == q),
                        None => assert(e1[e1.len() - 1].0@ == q),
                    }
                }
            }
            assert forall|q: Seq<char>| #[trigger] has_name(e1, q) implies entries_map(e1)[q]
                == entries_map(e0).insert(k, v)[q] by {
                let j = choose|j: int| 0 <= j < e1.len() && (#[trigger] e1[j]).0@ == q;
                lemma_entry_in_map(e1, j);
                if q != k {
                    lemma_entry_in_map(e0, j);
                }
            }
        }
        self.entries = entries;
    }

    /// The theme named `name`, if there is one.
    pub fn get(&self, name: &str) -> (r: Option<&Theme>)
        ensures
            r matches Some(t) ==> self@.contains_key(name@) && t@ == self@[name@],
            r is None ==> !self@.contains_key(name@),
    {
        proof {
            use_type_invariant(self);
        }
        match self.find(name) {
            Some(i) => {
                proof {
                    lemma_entry_in_map(self.entries@, i as int);
                }
                Some(&self.entries[i].1)
            },
            None => None,
        }
    }

    /// The names of the themes, each once.
    pub fn names(&self) -> (r: Vec<String>)
        ensures
            forall|i: int, j: int| 0 <= i < j < r@.len() ==> (#[trigger] r@[i])@ != (#[trigger] r@[j])@,
            forall|i: int| 0 <= i < r@.len() ==> self@.contains_key((#[trigger] r@[i])@),
            forall|k: Seq<char>| #[trigger] self@.contains_key(k) ==> exists|i: int| 0 <= i < r@.len() && (#[trigger] r@[i])@ == k,
    {
        proof {
            use_type_invariant(self);
        }
        let mut r: Vec<String> = Vec::new();
        let mut i: usize = 0;
        while i < self.entries.len()
            invariant
                i <= self.entries@.len(),
                names_distinct(self.entries@),
                r@.len() == i,
                forall|j: int| 0 <= j < i ==> (#[trigger] r@[j])@ == self.entries@[j].0@,
            decreases self.entries@.len() - i,
        {
            r.push(self.entries[i].0.clone());
            i += 1;
        }
        assert forall|k: Seq<char>| #[trigger] self@.contains_key(k) implies exists|i: int| 0 <= i < r@.len() && (#[trigger] r@[i])@ == k by {
            let j = choose|j: int| 0 <= j < self.entries@.len() && (#[trigger] self.entries@[j]).0@ == k;
            assert(r@[j]@ == k);
        }
        assert forall|i: int| 0 <= i < r@.len() implies self@.contains_key((#[trigger] r@[i])@) by {
            assert(self.entries@[i].0@ == r@[i]@);
        }
        r
    }
}

/// The message with which `KeypadConfig::new` refuses a passcode longer than
/// AO3 can hold.
pub open spec fn ao3_length_error() -> Seq<char> {
    "password must be at most 3 digits long for use in ao3"@
}

/// The message with which `KeypadConfig::new` refuses an unknown theme.
pub open spec fn theme_name_error() -> Seq<char> {
    "provide a valid theme"@
}

/// What `KeypadConfig::new` gives for a passcode of `byte_len` bytes and
/// characters `passcode`, the theme name `theme` and the table `themes`.
pub open spec fn keypad_config_result(
    byte_len: nat,
    passcode: Seq<char>,
    theme: Seq<char>,
    themes: Map<Seq<char>, ThemeView>,
) -> Result<(Seq<char>, ThemeView), Seq<char>> {
    if byte_len > 3 {
        Err(ao3_length_error())
    } else if !valid_passcode(passcode) {
        Err(passcode_error(passcode))
    } else if !themes.contains_key(theme) {
        Err(theme_name_error())
    } else {
        Ok((passcode, themes[theme]))
    }
}

/// A configuration is only ever made from a theme that the table holds under
/// the given name, and it takes that theme as it stands: same border, colors
/// and pattern, together with the passcode as given.
pub proof fn lemma_config_takes_table_theme(
    byte_len: nat,
    passcode: Seq<char>,
    theme: Seq<char>,
    themes: Map<Seq<char>, ThemeView>,
)
    requires
        keypad_config_result(byte_len, passcode, theme, themes) is Ok,
    ensures
        themes.contains_key(theme),
        valid_passcode(passcode),
        byte_len <= 3,
        keypad_config_result(byte_len, passcode, theme, themes)->Ok_0.0 == passcode,
        keypad_config_result(byte_len, passcode, theme, themes)->Ok_0.1.border == themes[theme].border,
        keypad_config_result(byte_len, passcode, theme, themes)->Ok_0.1.colors == themes[theme].colors,
        keypad_config_result(byte_len, passcode, theme, themes)->Ok_0.1.pattern == themes[theme].pattern,
{
}

/// The plain view of the outcome of `KeypadConfig::new`.
pub open spec fn config_result_view(r: Result<KeypadConfig, String>) -> Result<(Seq<char>, ThemeView), Seq<char>> {
    match r {
        Ok(k) => Ok(k@),
        Err(e) => Err(e@),
    }
}

/// A configuration checked for use on AO3: a passcode of at most three
/// digits and a theme taken from a table.
pub struct KeypadConfig {
    config: Config,
}

impl View for KeypadConfig {
    type V = (Seq<char>, ThemeView);

    closed spec fn view(&self) -> (Seq<char>, ThemeView) {
        (self.config.passcode@, self.config.theme@)
    }
}

impl KeypadConfig {
    /// Checks `passcode` (at most 3 bytes, then as `Passcode::new` does) and
    /// looks up `theme` in `themes`.
    pub fn new(passcode: &str, theme: &str, themes: &Themes) -> (r: Result<KeypadConfig, String>)
        ensures
            config_result_view(r) == keypad_config_result(
                passcode.spec_bytes().len(),
                passcode@,
                theme@,
                themes@,
            ),
            r matches Ok(k) ==> themes@.contains_key(theme@) && k@.0 == passcode@ && k@.1 == themes@[theme@],
    {
        if passcode.as_bytes().len() > 3 {
            return Err(String::from_str("password must be at most 3 digits long for use in ao3"));
        }
        let p = match Passcode::new(passcode) {
            Ok(p) => p,
            Err(e) => {
                return Err(e);
            },
        };
        let t = match themes.get(theme) {
            Some(t) => t.clone(),
            None => {
                return Err(String::from_str("provide a valid theme"));
            },
        };
        Ok(KeypadConfig { config: Config { passcode: p, theme: t } })
    }

    /// The checked configuration.
    pub fn config(&self) -> (r: &Config)
        ensures
            (r.passcode@, r.theme@) == self@,
    {
        &self.config
    }
}

} // verus!
