use keypad::ao3_css_transform::{ao3_css_from_uncommented, ao3_css_transform, ao3_keypad_css, TransformError};
use keypad::ao3_html_transform::{ao3_html_transform, one_line_body};
use keypad::keypad::{generate_keypad_css, Config, Passcode, Theme};

#[test]
fn ao3_css_of_keypad_style_sheet() {
    let theme = Theme::new(
        String::new(),
        vec!["background-color: white".to_string(), "background-color: #ccc;color: red".to_string()],
        ["010".to_string(), "101".to_string(), "010".to_string()],
    )
    .unwrap();
    let config = Config { passcode: Passcode::new("12").unwrap(), theme };
    let css = generate_keypad_css(&config);
    assert_eq!(ao3_keypad_css(&config), ao3_css_transform(&css));
    assert_eq!(ao3_css_transform(&css), ".kp {\n    display: grid\n}\n.kp {\n    grid-template-columns: min-content min-content min-content\n}\n.bt {\n    width: 1.2em\n}\n.bt {\n    height: 1.2em\n}\n.bt {\n    font-size: xx-large\n}\n.bt {\n    padding: 10px\n}\n.bt {\n    margin: 3px\n}\n.bt {\n    display: inline-block\n}\n.bt {\n    background-color: white\n}\n.bt {\n    display: flex\n}\n.bt {\n    justify-content: center\n}\n.bt {\n    align-items: center\n}\n.bt {\n    text-decoration: none\n}\n.bt {\n    font-family: 'Courier New', Courier, monospace\n}\n.bt {\n    font-weight: 900\n}\n.bt {\n    color: black\n}\n.bt:nth-child(1)::before {\n    content: \"1\"\n}\n.bt:nth-child(2)::before {\n    content: \"2\"\n}\n.bt:nth-child(3)::before {\n    content: \"3\"\n}\n.bt:nth-child(4)::before {\n    content: \"4\"\n}\n.bt:nth-child(5)::before {\n    content: \"5\"\n}\n.bt:nth-child(6)::before {\n    content: \"6\"\n}\n.bt:nth-child(7)::before {\n    content: \"7\"\n}\n.bt:nth-child(8)::before {\n    content: \"8\"\n}\n.bt:nth-child(9)::before {\n    content: \"9\"\n}\n.bt:hover {\n    filter: brightness(97%)\n}\n.bt:focus {\n    filter: brightness(85%)\n}\n.inva {\n    display:none\n}\n.invap {\n    display:none\n}\n.kp {\n    display: none\n}\n.kpmcon:not(:has(a.kpnfin:target)) .kp_ {\n    display: grid\n}\n.invap:has(.inva:target) + .kp {\n    display: grid\n}\n.kpmcon:not(:has(#c12:target)):has(.kpfin:target)::after {\n    content: \"Incorrect Passcode\"\n}\n.kpmcon:not(:has(#c12:target)):has(.kpfin:target)::after {\n    color: red\n}\n.secret {\n    display: none\n}\n.kpmcon:has(#c12:target)~.secret {\n    display: block\n}\n.secret[open] {\n    display: block\n}\n.secret summary::after {\n    content: \"🔑 click to open\"\n}\n.secret summary:hover {\n    color: green\n}\n.secret[open] summary::after {\n    content: \"🔑 click to close\"\n}\n.secret[open] summary:hover {\n    color: red\n}\n.kpmcon:has(~.secret[open]) {\n    display: none\n}\ndetails.secret summary::-webkit-details-marker, details.secret summary::marker {\n    display: none\n}\ndetails.secret summary::-webkit-details-marker, details.secret summary::marker {\n    content: \"\"\n}\n.bt {\n    border: 1px solid black\n}\n.bt:nth-child(1) {\n    background-color: white\n}\n.bt:nth-child(2) {\n    background-color: #ccc\n}\n.bt:nth-child(2) {\n    color: red\n}\n.bt:nth-child(3) {\n    background-color: white\n}\n.bt:nth-child(4) {\n    background-color: #ccc\n}\n.bt:nth-child(4) {\n    color: red\n}\n.bt:nth-child(5) {\n    background-color: white\n}\n.bt:nth-child(6) {\n    background-color: #ccc\n}\n.bt:nth-child(6) {\n    color: red\n}\n.bt:nth-child(7) {\n    background-color: white\n}\n.bt:nth-child(8) {\n    background-color: #ccc\n}\n.bt:nth-child(8) {\n    color: red\n}\n.bt:nth-child(9) {\n    background-color: white\n}");
}

#[test]
fn ao3_css_comments_and_selectors() {
    assert_eq!(ao3_css_transform("/* head */\n.a,\n.b {\n  color: red; /* note\n spanning */ margin: 0;\n}\n.c\n{\n}\n .d { x: 1 } \n"), ".b {\n    color: red\n}\n.b {\n    margin: 0\n}");
}

#[test]
fn ao3_css_carriage_returns_and_empty_declarations() {
    assert_eq!(ao3_css_transform("p {\r\n  a: b;;\r\n}\r\n\n"), "p {\n    a: b\n}");
}

#[test]
fn ao3_css_empty_input() {
    assert_eq!(ao3_css_transform(""), String::new());
    assert_eq!(ao3_css_transform("/* only a comment */"), String::new());
}

#[test]
fn ao3_css_uncommented_keeps_comment_text() {
    assert_eq!(ao3_css_from_uncommented("a {\n/* b */\n}"), "a {\n    /* b */\n}");
}

#[test]
fn ao3_css_selector_before_brace_line_is_dropped() {
    assert_eq!(ao3_css_from_uncommented("x\ny {\nz: 1\n}"), "y {\n    z: 1\n}");
}

#[test]
fn ao3_html_body_on_one_line() {
    let page = "<html><head></head><body>\n  <p>a</p>\n<p>b</p>\n </body></html>";
    assert_eq!(ao3_html_transform(page), Ok("<p>a</p> <p>b</p>".to_string()));
}

#[test]
fn ao3_html_takes_up_to_last_body_end() {
    let page = "<body>x</body>y</body>";
    assert_eq!(ao3_html_transform(page), Ok("x</body>y".to_string()));
}

#[test]
fn ao3_html_without_body_is_refused() {
    assert_eq!(ao3_html_transform("<html></html>"), Err(TransformError::NoMatch));
}

#[test]
fn ao3_one_line_body() {
    assert_eq!(one_line_body("\n a\nb\n\nc \n"), "a b  c");
}

#[test]
fn ao3_css_rewrite_is_idempotent() {
    let sheets = [
        "a { color: red; margin: 0 }\n",
        ".x,\n.y {\n  border: 1px solid black;\n}\n\n#c12:target { display: block; }",
        "p{a:b;c:d}\nq {\n e: f\n}",
    ];
    for css in sheets {
        let once = ao3_css_transform(css);
        let twice = ao3_css_transform(&once);
        assert_eq!(twice, once);
    }
}

#[test]
fn ao3_css_rewrite_of_two_sheets() {
    let a = "a {\n  color: red;\n  margin: 0;\n}\n";
    let b = "b {\n  padding: 1px;\n  border: none;\n}";
    let whole = ao3_css_transform(&format!("{}{}", a, b));
    assert_eq!(whole, format!("{}\n{}", ao3_css_transform(a), ao3_css_transform(b)));
    assert_eq!(whole, "a {\n    color: red\n}\na {\n    margin: 0\n}\nb {\n    padding: 1px\n}\nb {\n    border: none\n}");
}
