use keypad::keypad::{Passcode, Theme};
use keypad::pages::{generate_standalone_css, generate_standalone_html, page_html, standalone_pages};

fn red_theme() -> Theme {
    Theme::new(
        String::new(),
        vec!["color: red".to_string()],
        ["00".to_string(), "0".to_string(), String::new()],
    )
    .unwrap()
}

#[test]
fn page_wraps_markup() {
    assert_eq!(page_html("<p>x</p>"), "<!DOCTYPE html><html lang=\"en\"><head><meta charset=\"UTF-8\"><meta name=\"viewport\" content=\"width=device-width, initial-scale=1.0\"><title>Document</title><link rel=\"stylesheet\" href=\"style.css\"></head><body>\n<p>x</p>\n</body></html>");
}

#[test]
fn standalone_html_is_untrimmed() {
    let html = generate_standalone_html(2);
    assert_eq!(html, "\n<div class=\"kpmcon\">\n<a href=\"#r_\">reset</a>\n<p class=\"kp kp_\"><a class=\"bt\" href=\"#c1\"></a><a class=\"bt\" href=\"#c2\"></a><a class=\"bt\" href=\"#c3\"></a><a class=\"bt\" href=\"#c4\"></a><a class=\"bt\" href=\"#c5\"></a><a class=\"bt\" href=\"#c6\"></a><a class=\"bt\" href=\"#c7\"></a><a class=\"bt\" href=\"#c8\"></a><a class=\"bt\" href=\"#c9\"></a></p><p class=\"invap\"><a class=\"inva kpnfin\" name=\"c1\" id=\"c1\"></a></p><p class=\"kp kp_1\"><a class=\"bt\" href=\"#c11\"></a><a class=\"bt\" href=\"#c12\"></a><a class=\"bt\" href=\"#c13\"></a><a class=\"bt\" href=\"#c14\"></a><a class=\"bt\" href=\"#c15\"></a><a class=\"bt\" href=\"#c16\"></a><a class=\"bt\" href=\"#c17\"></a><a class=\"bt\" href=\"#c18\"></a><a class=\"bt\" href=\"#c19\"></a></p><p class=\"invap\"><a class=\"inva kpfin\" name=\"c11\" id=\"c11\"></a></p><p class=\"invap\"><a class=\"inva kpfin\" name=\"c12\" id=\"c12\"></a></p><p class=\"invap\"><a class=\"inva kpfin\" name=\"c13\" id=\"c13\"></a></p><p class=\"invap\"><a class=\"inva kpfin\" name=\"c14\" id=\"c14\"></a></p><p class=\"invap\"><a class=\"inva kpfin\" name=\"c15\" id=\"c15\"></a></p><p class=\"invap\"><a class=\"inva kpfin\" name=\"c16\" id=\"c16\"></a></p><p class=\"invap\"><a class=\"inva kpfin\" name=\"c17\" id=\"c17\"></a></p><p class=\"invap\"><a class=\"inva kpfin\" name=\"c18\" id=\"c18\"></a></p><p class=\"invap\"><a class=\"inva kpfin\" name=\"c19\" id=\"c19\"></a></p><p class=\"invap\"><a class=\"inva kpnfin\" name=\"c2\" id=\"c2\"></a></p><p class=\"kp kp_2\"><a class=\"bt\" href=\"#c21\"></a><a class=\"bt\" href=\"#c22\"></a><a class=\"bt\" href=\"#c23\"></a><a class=\"bt\" href=\"#c24\"></a><a class=\"bt\" href=\"#c25\"></a><a class=\"bt\" href=\"#c26\"></a><a class=\"bt\" href=\"#c27\"></a><a class=\"bt\" href=\"#c28\"></a><a class=\"bt\" href=\"#c29\"></a></p><p class=\"invap\"><a class=\"inva kpfin\" name=\"c21\" id=\"c21\"></a></p><p class=\"invap\"><a class=\"inva kpfin\" name=\"c22\" id=\"c22\"></a></p><p class=\"invap\"><a class=\"inva kpfin\" name=\"c23\" id=\"c23\"></a></p><p class=\"invap\"><a class=\"inva kpfin\" name=\"c24\" id=\"c24\"></a></p><p class=\"invap\"><a class=\"inva kpfin\" name=\"c25\" id=\"c25\"></a></p><p class=\"invap\"><a class=\"inva kpfin\" name=\"c26\" id=\"c26\"></a></p><p class=\"invap\"><a class=\"inva kpfin\" name=\"c27\" id=\"c27\"></a></p><p class=\"invap\"><a class=\"inva kpfin\" name=\"c28\" id=\"c28\"></a></p><p class=\"invap\"><a class=\"inva kpfin\" name=\"c29\" id=\"c29\"></a></p><p class=\"invap\"><a class=\"inva kpnfin\" name=\"c3\" id=\"c3\"></a></p><p class=\"kp kp_3\"><a class=\"bt\" href=\"#c31\"></a><a class=\"bt\" href=\"#c32\"></a><a class=\"bt\" href=\"#c33\"></a><a class=\"bt\" href=\"#c34\"></a><a class=\"bt\" href=\"#c35\"></a><a class=\"bt\" href=\"#c36\"></a><a class=\"bt\" href=\"#c37\"></a><a class=\"bt\" href=\"#c38\"></a><a class=\"bt\" href=\"#c39\"></a></p><p class=\"invap\"><a class=\"inva kpfin\" name=\"c31\" id=\"c31\"></a></p><p class=\"invap\"><a class=\"inva kpfin\" name=\"c32\" id=\"c32\"></a></p><p class=\"invap\"><a class=\"inva kpfin\" name=\"c33\" id=\"c33\"></a></p><p class=\"invap\"><a class=\"inva kpfin\" name=\"c34\" id=\"c34\"></a></p><p class=\"invap\"><a class=\"inva kpfin\" name=\"c35\" id=\"c35\"></a></p><p class=\"invap\"><a class=\"inva kpfin\" name=\"c36\" id=\"c36\"></a></p><p class=\"invap\"><a class=\"inva kpfin\" name=\"c37\" id=\"c37\"></a></p><p class=\"invap\"><a class=\"inva kpfin\" name=\"c38\" id=\"c38\"></a></p><p class=\"invap\"><a class=\"inva kpfin\" name=\"c39\" id=\"c39\"></a></p><p class=\"invap\"><a class=\"inva kpnfin\" name=\"c4\" id=\"c4\"></a></p><p class=\"kp kp_4\"><a class=\"bt\" href=\"#c41\"></a><a class=\"bt\" href=\"#c42\"></a><a class=\"bt\" href=\"#c43\"></a><a class=\"bt\" href=\"#c44\"></a><a class=\"bt\" href=\"#c45\"></a><a class=\"bt\" href=\"#c46\"></a><a class=\"bt\" href=\"#c47\"></a><a class=\"bt\" href=\"#c48\"></a><a class=\"bt\" href=\"#c49\"></a></p><p class=\"invap\"><a class=\"inva kpfin\" name=\"c41\" id=\"c41\"></a></p><p class=\"invap\"><a class=\"inva kpfin\" name=\"c42\" id=\"c42\"></a></p><p class=\"invap\"><a class=\"inva kpfin\" name=\"c43\" id=\"c43\"></a></p><p class=\"invap\"><a class=\"inva kpfin\" name=\"c44\" id=\"c44\"></a></p><p class=\"invap\"><a class=\"inva kpfin\" name=\"c45\" id=\"c45\"></a></p><p class=\"invap\"><a class=\"inva kpfin\" name=\"c46\" id=\"c46\"></a></p><p class=\"invap\"><a class=\"inva kpfin\" name=\"c47\" id=\"c47\"></a></p><p class=\"invap\"><a class=\"inva kpfin\" name=\"c48\" id=\"c48\"></a></p><p class=\"invap\"><a class=\"inva kpfin\" name=\"c49\" id=\"c49\"></a></p><p class=\"invap\"><a class=\"inva kpnfin\" name=\"c5\" id=\"c5\"></a></p><p class=\"kp kp_5\"><a class=\"bt\" href=\"#c51\"></a><a class=\"bt\" href=\"#c52\"></a><a class=\"bt\" href=\"#c53\"></a><a class=\"bt\" href=\"#c54\"></a><a class=\"bt\" href=\"#c55\"></a><a class=\"bt\" href=\"#c56\"></a><a class=\"bt\" href=\"#c57\"></a><a class=\"bt\" href=\"#c58\"></a><a class=\"bt\" href=\"#c59\"></a></p><p class=\"invap\"><a class=\"inva kpfin\" name=\"c51\" id=\"c51\"></a></p><p class=\"invap\"><a class=\"inva kpfin\" name=\"c52\" id=\"c52\"></a></p><p class=\"invap\"><a class=\"inva kpfin\" name=\"c53\" id=\"c53\"></a></p><p class=\"invap\"><a class=\"inva kpfin\" name=\"c54\" id=\"c54\"></a></p><p class=\"invap\"><a class=\"inva kpfin\" name=\"c55\" id=\"c55\"></a></p><p class=\"invap\"><a class=\"inva kpfin\" name=\"c56\" id=\"c56\"></a></p><p class=\"invap\"><a class=\"inva kpfin\" name=\"c57\" id=\"c57\"></a></p><p class=\"invap\"><a class=\"inva kpfin\" name=\"c58\" id=\"c58\"></a></p><p class=\"invap\"><a class=\"inva kpfin\" name=\"c59\" id=\"c59\"></a></p><p class=\"invap\"><a class=\"inva kpnfin\" name=\"c6\" id=\"c6\"></a></p><p class=\"kp kp_6\"><a class=\"bt\" href=\"#c61\"></a><a class=\"bt\" href=\"#c62\"></a><a class=\"bt\" href=\"#c63\"></a><a class=\"bt\" href=\"#c64\"></a><a class=\"bt\" href=\"#c65\"></a><a class=\"bt\" href=\"#c66\"></a><a class=\"bt\" href=\"#c67\"></a><a class=\"bt\" href=\"#c68\"></a><a class=\"bt\" href=\"#c69\"></a></p><p class=\"invap\"><a class=\"inva kpfin\" name=\"c61\" id=\"c61\"></a></p><p class=\"invap\"><a class=\"inva kpfin\" name=\"c62\" id=\"c62\"></a></p><p class=\"invap\"><a class=\"inva kpfin\" name=\"c63\" id=\"c63\"></a></p><p class=\"invap\"><a class=\"inva kpfin\" name=\"c64\" id=\"c64\"></a></p><p class=\"invap\"><a class=\"inva kpfin\" name=\"c65\" id=\"c65\"></a></p><p class=\"invap\"><a class=\"inva kpfin\" name=\"c66\" id=\"c66\"></a></p><p class=\"invap\"><a class=\"inva kpfin\" name=\"c67\" id=\"c67\"></a></p><p class=\"invap\"><a class=\"inva kpfin\" name=\"c68\" id=\"c68\"></a></p><p class=\"invap\"><a class=\"inva kpfin\" name=\"c69\" id=\"c69\"></a></p><p class=\"invap\"><a class=\"inva kpnfin\" name=\"c7\" id=\"c7\"></a></p><p class=\"kp kp_7\"><a class=\"bt\" href=\"#c71\"></a><a class=\"bt\" href=\"#c72\"></a><a class=\"bt\" href=\"#c73\"></a><a class=\"bt\" href=\"#c74\"></a><a class=\"bt\" href=\"#c75\"></a><a class=\"bt\" href=\"#c76\"></a><a class=\"bt\" href=\"#c77\"></a><a class=\"bt\" href=\"#c78\"></a><a class=\"bt\" href=\"#c79\"></a></p><p class=\"invap\"><a class=\"inva kpfin\" name=\"c71\" id=\"c71\"></a></p><p class=\"invap\"><a class=\"inva kpfin\" name=\"c72\" id=\"c72\"></a></p><p class=\"invap\"><a class=\"inva kpfin\" name=\"c73\" id=\"c73\"></a></p><p class=\"invap\"><a class=\"inva kpfin\" name=\"c74\" id=\"c74\"></a></p><p class=\"invap\"><a class=\"inva kpfin\" name=\"c75\" id=\"c75\"></a></p><p class=\"invap\"><a class=\"inva kpfin\" name=\"c76\" id=\"c76\"></a></p><p class=\"invap\"><a class=\"inva kpfin\" name=\"c77\" id=\"c77\"></a></p><p class=\"invap\"><a class=\"inva kpfin\" name=\"c78\" id=\"c78\"></a></p><p class=\"invap\"><a class=\"inva kpfin\" name=\"c79\" id=\"c79\"></a></p><p class=\"invap\"><a class=\"inva kpnfin\" name=\"c8\" id=\"c8\"></a></p><p class=\"kp kp_8\"><a class=\"bt\" href=\"#c81\"></a><a class=\"bt\" href=\"#c82\"></a><a class=\"bt\" href=\"#c83\"></a><a class=\"bt\" href=\"#c84\"></a><a class=\"bt\" href=\"#c85\"></a><a class=\"bt\" href=\"#c86\"></a><a class=\"bt\" href=\"#c87\"></a><a class=\"bt\" href=\"#c88\"></a><a class=\"bt\" href=\"#c89\"></a></p><p class=\"invap\"><a class=\"inva kpfin\" name=\"c81\" id=\"c81\"></a></p><p class=\"invap\"><a class=\"inva kpfin\" name=\"c82\" id=\"c82\"></a></p><p class=\"invap\"><a class=\"inva kpfin\" name=\"c83\" id=\"c83\"></a></p><p class=\"invap\"><a class=\"inva kpfin\" name=\"c84\" id=\"c84\"></a></p><p class=\"invap\"><a class=\"inva kpfin\" name=\"c85\" id=\"c85\"></a></p><p class=\"invap\"><a class=\"inva kpfin\" name=\"c86\" id=\"c86\"></a></p><p class=\"invap\"><a class=\"inva kpfin\" name=\"c87\" id=\"c87\"></a></p><p class=\"invap\"><a class=\"inva kpfin\" name=\"c88\" id=\"c88\"></a></p><p class=\"invap\"><a class=\"inva kpfin\" name=\"c89\" id=\"c89\"></a></p><p class=\"invap\"><a class=\"inva kpnfin\" name=\"c9\" id=\"c9\"></a></p><p class=\"kp kp_9\"><a class=\"bt\" href=\"#c91\"></a><a class=\"bt\" href=\"#c92\"></a><a class=\"bt\" href=\"#c93\"></a><a class=\"bt\" href=\"#c94\"></a><a class=\"bt\" href=\"#c95\"></a><a class=\"bt\" href=\"#c96\"></a><a class=\"bt\" href=\"#c97\"></a><a class=\"bt\" href=\"#c98\"></a><a class=\"bt\" href=\"#c99\"></a></p><p class=\"invap\"><a class=\"inva kpfin\" name=\"c91\" id=\"c91\"></a></p><p class=\"invap\"><a class=\"inva kpfin\" name=\"c92\" id=\"c92\"></a></p><p class=\"invap\"><a class=\"inva kpfin\" name=\"c93\" id=\"c93\"></a></p><p class=\"invap\"><a class=\"inva kpfin\" name=\"c94\" id=\"c94\"></a></p><p class=\"invap\"><a class=\"inva kpfin\" name=\"c95\" id=\"c95\"></a></p><p class=\"invap\"><a class=\"inva kpfin\" name=\"c96\" id=\"c96\"></a></p><p class=\"invap\"><a class=\"inva kpfin\" name=\"c97\" id=\"c97\"></a></p><p class=\"invap\"><a class=\"inva kpfin\" name=\"c98\" id=\"c98\"></a></p><p class=\"invap\"><a class=\"inva kpfin\" name=\"c99\" id=\"c99\"></a></p>\n</div>\n");
}

#[test]
fn standalone_css_keeps_placeholder() {
    let css = generate_standalone_css(&red_theme());
    assert_eq!(css, "\n.kp {\n    display: grid;\n    grid-template-columns: min-content min-content min-content;\n}\n\n.bt {\n    width: 1.2em;\n    height: 1.2em;\n    font-size: xx-large;\n    padding: 10px;\n    margin: 3px;\n    display: inline-block;\n    background-color: white;\n    display: flex;\n    justify-content: center;\n    align-items: center;\n    text-decoration: none;\n    font-family: 'Courier New', Courier, monospace;\n    font-weight: 900;\n    color: black;\n}\n\n.bt:nth-child(1)::before {\n    content: \"1\";\n}\n.bt:nth-child(2)::before {\n    content: \"2\";\n}\n.bt:nth-child(3)::before {\n    content: \"3\";\n}\n.bt:nth-child(4)::before {\n    content: \"4\";\n}\n.bt:nth-child(5)::before {\n    content: \"5\";\n}\n.bt:nth-child(6)::before {\n    content: \"6\";\n}\n.bt:nth-child(7)::before {\n    content: \"7\";\n}\n.bt:nth-child(8)::before {\n    content: \"8\";\n}\n.bt:nth-child(9)::before {\n    content: \"9\";\n}\n\n.bt:hover {\n    filter: brightness(97%);\n}\n.bt:focus {\n    filter: brightness(85%);\n}\n\n.inva {\n    display:none;\n}\n.invap {\n    display:none;\n}\n.kp {\n    display: none;\n}\n.kpmcon:not(:has(a.kpnfin:target)) .kp_ {\n    display: grid;\n}\n\n.invap:has(.inva:target) + .kp {\n    display: grid;\n}\n.kpmcon:not(:has(#c***:target)):has(.kpfin:target)::after {\n    content: \"Incorrect Passcode\";\n    color: red;\n}\n.bt {\n    border: 1px solid black;\n}\n.bt:nth-child(1) {\n    color: red;\n}\n.bt:nth-child(2) {\n    color: red;\n}\n.bt:nth-child(4) {\n    color: red;\n}\n");
    assert!(css.contains("#c***:target"));
}

#[test]
fn standalone_pages_for_passcode() {
    let (page, sheet) = standalone_pages(&Passcode::new("38").unwrap(), &red_theme());
    assert_eq!(page, "<!DOCTYPE html><html lang=\"en\"><head><meta charset=\"UTF-8\"><meta name=\"viewport\" content=\"width=device-width, initial-scale=1.0\"><title>Document</title><link rel=\"stylesheet\" href=\"style.css\"></head><body>\n\n<div class=\"kpmcon\">\n<a href=\"#r_\">reset</a>\n<p class=\"kp kp_\"><a class=\"bt\" href=\"#c1\"></a><a class=\"bt\" href=\"#c2\"></a><a class=\"bt\" href=\"#c3\"></a><a class=\"bt\" href=\"#c4\"></a><a class=\"bt\" href=\"#c5\"></a><a class=\"bt\" href=\"#c6\"></a><a class=\"bt\" href=\"#c7\"></a><a class=\"bt\" href=\"#c8\"></a><a class=\"bt\" href=\"#c9\"></a></p><p class=\"invap\"><a class=\"inva kpnfin\" name=\"c1\" id=\"c1\"></a></p><p class=\"kp kp_1\"><a class=\"bt\" href=\"#c11\"></a><a class=\"bt\" href=\"#c12\"></a><a class=\"bt\" href=\"#c13\"></a><a class=\"bt\" href=\"#c14\"></a><a class=\"bt\" href=\"#c15\"></a><a class=\"bt\" href=\"#c16\"></a><a class=\"bt\" href=\"#c17\"></a><a class=\"bt\" href=\"#c18\"></a><a class=\"bt\" href=\"#c19\"></a></p><p class=\"invap\"><a class=\"inva kpfin\" name=\"c11\" id=\"c11\"></a></p><p class=\"invap\"><a class=\"inva kpfin\" name=\"c12\" id=\"c12\"></a></p><p class=\"invap\"><a class=\"inva kpfin\" name=\"c13\" id=\"c13\"></a></p><p class=\"invap\"><a class=\"inva kpfin\" name=\"c14\" id=\"c14\"></a></p><p class=\"invap\"><a class=\"inva kpfin\" name=\"c15\" id=\"c15\"></a></p><p class=\"invap\"><a class=\"inva kpfin\" name=\"c16\" id=\"c16\"></a></p><p class=\"invap\"><a class=\"inva kpfin\" name=\"c17\" id=\"c17\"></a></p><p class=\"invap\"><a class=\"inva kpfin\" name=\"c18\" id=\"c18\"></a></p><p class=\"invap\"><a class=\"inva kpfin\" name=\"c19\" id=\"c19\"></a></p><p class=\"invap\"><a class=\"inva kpnfin\" name=\"c2\" id=\"c2\"></a></p><p class=\"kp kp_2\"><a class=\"bt\" href=\"#c21\"></a><a class=\"bt\" href=\"#c22\"></a><a class=\"bt\" href=\"#c23\"></a><a class=\"bt\" href=\"#c24\"></a><a class=\"bt\" href=\"#c25\"></a><a class=\"bt\" href=\"#c26\"></a><a class=\"bt\" href=\"#c27\"></a><a class=\"bt\" href=\"#c28\"></a><a class=\"bt\" href=\"#c29\"></a></p><p class=\"invap\"><a class=\"inva kpfin\" name=\"c21\" id=\"c21\"></a></p><p class=\"invap\"><a class=\"inva kpfin\" name=\"c22\" id=\"c22\"></a></p><p class=\"invap\"><a class=\"inva kpfin\" name=\"c23\" id=\"c23\"></a></p><p class=\"invap\"><a class=\"inva kpfin\" name=\"c24\" id=\"c24\"></a></p><p class=\"invap\"><a class=\"inva kpfin\" name=\"c25\" id=\"c25\"></a></p><p class=\"invap\"><a class=\"inva kpfin\" name=\"c26\" id=\"c26\"></a></p><p class=\"invap\"><a class=\"inva kpfin\" name=\"c27\" id=\"c27\"></a></p><p class=\"invap\"><a class=\"inva kpfin\" name=\"c28\" id=\"c28\"></a></p><p class=\"invap\"><a class=\"inva kpfin\" name=\"c29\" id=\"c29\"></a></p><p class=\"invap\"><a class=\"inva kpnfin\" name=\"c3\" id=\"c3\"></a></p><p class=\"kp kp_3\"><a class=\"bt\" href=\"#c31\"></a><a class=\"bt\" href=\"#c32\"></a><a class=\"bt\" href=\"#c33\"></a><a class=\"bt\" href=\"#c34\"></a><a class=\"bt\" href=\"#c35\"></a><a class=\"bt\" href=\"#c36\"></a><a class=\"bt\" href=\"#c37\"></a><a class=\"bt\" href=\"#c38\"></a><a class=\"bt\" href=\"#c39\"></a></p><p class=\"invap\"><a class=\"inva kpfin\" name=\"c31\" id=\"c31\"></a></p><p class=\"invap\"><a class=\"inva kpfin\" name=\"c32\" id=\"c32\"></a></p><p class=\"invap\"><a class=\"inva kpfin\" name=\"c33\" id=\"c33\"></a></p><p class=\"invap\"><a class=\"inva kpfin\" name=\"c34\" id=\"c34\"></a></p><p class=\"invap\"><a class=\"inva kpfin\" name=\"c35\" id=\"c35\"></a></p><p class=\"invap\"><a class=\"inva kpfin\" name=\"c36\" id=\"c36\"></a></p><p class=\"invap\"><a class=\"inva kpfin\" name=\"c37\" id=\"c37\"></a></p><p class=\"invap\"><a class=\"inva kpfin\" name=\"c38\" id=\"c38\"></a></p><p class=\"invap\"><a class=\"inva kpfin\" name=\"c39\" id=\"c39\"></a></p><p class=\"invap\"><a class=\"inva kpnfin\" name=\"c4\" id=\"c4\"></a></p><p class=\"kp kp_4\"><a class=\"bt\" href=\"#c41\"></a><a class=\"bt\" href=\"#c42\"></a><a class=\"bt\" href=\"#c43\"></a><a class=\"bt\" href=\"#c44\"></a><a class=\"bt\" href=\"#c45\"></a><a class=\"bt\" href=\"#c46\"></a><a class=\"bt\" href=\"#c47\"></a><a class=\"bt\" href=\"#c48\"></a><a class=\"bt\" href=\"#c49\"></a></p><p class=\"invap\"><a class=\"inva kpfin\" name=\"c41\" id=\"c41\"></a></p><p class=\"invap\"><a class=\"inva kpfin\" name=\"c42\" id=\"c42\"></a></p><p class=\"invap\"><a class=\"inva kpfin\" name=\"c43\" id=\"c43\"></a></p><p class=\"invap\"><a class=\"inva kpfin\" name=\"c44\" id=\"c44\"></a></p><p class=\"invap\"><a class=\"inva kpfin\" name=\"c45\" id=\"c45\"></a></p><p class=\"invap\"><a class=\"inva kpfin\" name=\"c46\" id=\"c46\"></a></p><p class=\"invap\"><a class=\"inva kpfin\" name=\"c47\" id=\"c47\"></a></p><p class=\"invap\"><a class=\"inva kpfin\" name=\"c48\" id=\"c48\"></a></p><p class=\"invap\"><a class=\"inva kpfin\" name=\"c49\" id=\"c49\"></a></p><p class=\"invap\"><a class=\"inva kpnfin\" name=\"c5\" id=\"c5\"></a></p><p class=\"kp kp_5\"><a class=\"bt\" href=\"#c51\"></a><a class=\"bt\" href=\"#c52\"></a><a class=\"bt\" href=\"#c53\"></a><a class=\"bt\" href=\"#c54\"></a><a class=\"bt\" href=\"#c55\"></a><a class=\"bt\" href=\"#c56\"></a><a class=\"bt\" href=\"#c57\"></a><a class=\"bt\" href=\"#c58\"></a><a class=\"bt\" href=\"#c59\"></a></p><p class=\"invap\"><a class=\"inva kpfin\" name=\"c51\" id=\"c51\"></a></p><p class=\"invap\"><a class=\"inva kpfin\" name=\"c52\" id=\"c52\"></a></p><p class=\"invap\"><a class=\"inva kpfin\" name=\"c53\" id=\"c53\"></a></p><p class=\"invap\"><a class=\"inva kpfin\" name=\"c54\" id=\"c54\"></a></p><p class=\"invap\"><a class=\"inva kpfin\" name=\"c55\" id=\"c55\"></a></p><p class=\"invap\"><a class=\"inva kpfin\" name=\"c56\" id=\"c56\"></a></p><p class=\"invap\"><a class=\"inva kpfin\" name=\"c57\" id=\"c57\"></a></p><p class=\"invap\"><a class=\"inva kpfin\" name=\"c58\" id=\"c58\"></a></p><p class=\"invap\"><a class=\"inva kpfin\" name=\"c59\" id=\"c59\"></a></p><p class=\"invap\"><a class=\"inva kpnfin\" name=\"c6\" id=\"c6\"></a></p><p class=\"kp kp_6\"><a class=\"bt\" href=\"#c61\"></a><a class=\"bt\" href=\"#c62\"></a><a class=\"bt\" href=\"#c63\"></a><a class=\"bt\" href=\"#c64\"></a><a class=\"bt\" href=\"#c65\"></a><a class=\"bt\" href=\"#c66\"></a><a class=\"bt\" href=\"#c67\"></a><a class=\"bt\" href=\"#c68\"></a><a class=\"bt\" href=\"#c69\"></a></p><p class=\"invap\"><a class=\"inva kpfin\" name=\"c61\" id=\"c61\"></a></p><p class=\"invap\"><a class=\"inva kpfin\" name=\"c62\" id=\"c62\"></a></p><p class=\"invap\"><a class=\"inva kpfin\" name=\"c63\" id=\"c63\"></a></p><p class=\"invap\"><a class=\"inva kpfin\" name=\"c64\" id=\"c64\"></a></p><p class=\"invap\"><a class=\"inva kpfin\" name=\"c65\" id=\"c65\"></a></p><p class=\"invap\"><a class=\"inva kpfin\" name=\"c66\" id=\"c66\"></a></p><p class=\"invap\"><a class=\"inva kpfin\" name=\"c67\" id=\"c67\"></a></p><p class=\"invap\"><a class=\"inva kpfin\" name=\"c68\" id=\"c68\"></a></p><p class=\"invap\"><a class=\"inva kpfin\" name=\"c69\" id=\"c69\"></a></p><p class=\"invap\"><a class=\"inva kpnfin\" name=\"c7\" id=\"c7\"></a></p><p class=\"kp kp_7\"><a class=\"bt\" href=\"#c71\"></a><a class=\"bt\" href=\"#c72\"></a><a class=\"bt\" href=\"#c73\"></a><a class=\"bt\" href=\"#c74\"></a><a class=\"bt\" href=\"#c75\"></a><a class=\"bt\" href=\"#c76\"></a><a class=\"bt\" href=\"#c77\"></a><a class=\"bt\" href=\"#c78\"></a><a class=\"bt\" href=\"#c79\"></a></p><p class=\"invap\"><a class=\"inva kpfin\" name=\"c71\" id=\"c71\"></a></p><p class=\"invap\"><a class=\"inva kpfin\" name=\"c72\" id=\"c72\"></a></p><p class=\"invap\"><a class=\"inva kpfin\" name=\"c73\" id=\"c73\"></a></p><p class=\"invap\"><a class=\"inva kpfin\" name=\"c74\" id=\"c74\"></a></p><p class=\"invap\"><a class=\"inva kpfin\" name=\"c75\" id=\"c75\"></a></p><p class=\"invap\"><a class=\"inva kpfin\" name=\"c76\" id=\"c76\"></a></p><p class=\"invap\"><a class=\"inva kpfin\" name=\"c77\" id=\"c77\"></a></p><p class=\"invap\"><a class=\"inva kpfin\" name=\"c78\" id=\"c78\"></a></p><p class=\"invap\"><a class=\"inva kpfin\" name=\"c79\" id=\"c79\"></a></p><p class=\"invap\"><a class=\"inva kpnfin\" name=\"c8\" id=\"c8\"></a></p><p class=\"kp kp_8\"><a class=\"bt\" href=\"#c81\"></a><a class=\"bt\" href=\"#c82\"></a><a class=\"bt\" href=\"#c83\"></a><a class=\"bt\" href=\"#c84\"></a><a class=\"bt\" href=\"#c85\"></a><a class=\"bt\" href=\"#c86\"></a><a class=\"bt\" href=\"#c87\"></a><a class=\"bt\" href=\"#c88\"></a><a class=\"bt\" href=\"#c89\"></a></p><p class=\"invap\"><a class=\"inva kpfin\" name=\"c81\" id=\"c81\"></a></p><p class=\"invap\"><a class=\"inva kpfin\" name=\"c82\" id=\"c82\"></a></p><p class=\"invap\"><a class=\"inva kpfin\" name=\"c83\" id=\"c83\"></a></p><p class=\"invap\"><a class=\"inva kpfin\" name=\"c84\" id=\"c84\"></a></p><p class=\"invap\"><a class=\"inva kpfin\" name=\"c85\" id=\"c85\"></a></p><p class=\"invap\"><a class=\"inva kpfin\" name=\"c86\" id=\"c86\"></a></p><p class=\"invap\"><a class=\"inva kpfin\" name=\"c87\" id=\"c87\"></a></p><p class=\"invap\"><a class=\"inva kpfin\" name=\"c88\" id=\"c88\"></a></p><p class=\"invap\"><a class=\"inva kpfin\" name=\"c89\" id=\"c89\"></a></p><p class=\"invap\"><a class=\"inva kpnfin\" name=\"c9\" id=\"c9\"></a></p><p class=\"kp kp_9\"><a class=\"bt\" href=\"#c91\"></a><a class=\"bt\" href=\"#c92\"></a><a class=\"bt\" href=\"#c93\"></a><a class=\"bt\" href=\"#c94\"></a><a class=\"bt\" href=\"#c95\"></a><a class=\"bt\" href=\"#c96\"></a><a class=\"bt\" href=\"#c97\"></a><a class=\"bt\" href=\"#c98\"></a><a class=\"bt\" href=\"#c99\"></a></p><p class=\"invap\"><a class=\"inva kpfin\" name=\"c91\" id=\"c91\"></a></p><p class=\"invap\"><a class=\"inva kpfin\" name=\"c92\" id=\"c92\"></a></p><p class=\"invap\"><a class=\"inva kpfin\" name=\"c93\" id=\"c93\"></a></p><p class=\"invap\"><a class=\"inva kpfin\" name=\"c94\" id=\"c94\"></a></p><p class=\"invap\"><a class=\"inva kpfin\" name=\"c95\" id=\"c95\"></a></p><p class=\"invap\"><a class=\"inva kpfin\" name=\"c96\" id=\"c96\"></a></p><p class=\"invap\"><a class=\"inva kpfin\" name=\"c97\" id=\"c97\"></a></p><p class=\"invap\"><a class=\"inva kpfin\" name=\"c98\" id=\"c98\"></a></p><p class=\"invap\"><a class=\"inva kpfin\" name=\"c99\" id=\"c99\"></a></p>\n</div>\n\n<details class=\"secret\">\n<summary></summary>\n<h1>my secret header</h1>\n</details>\n</body></html>");
    assert_eq!(sheet, "\n\n.kp {\n    display: grid;\n    grid-template-columns: min-content min-content min-content;\n}\n\n.bt {\n    width: 1.2em;\n    height: 1.2em;\n    font-size: xx-large;\n    padding: 10px;\n    margin: 3px;\n    display: inline-block;\n    background-color: white;\n    display: flex;\n    justify-content: center;\n    align-items: center;\n    text-decoration: none;\n    font-family: 'Courier New', Courier, monospace;\n    font-weight: 900;\n    color: black;\n}\n\n.bt:nth-child(1)::before {\n    content: \"1\";\n}\n.bt:nth-child(2)::before {\n    content: \"2\";\n}\n.bt:nth-child(3)::before {\n    content: \"3\";\n}\n.bt:nth-child(4)::before {\n    content: \"4\";\n}\n.bt:nth-child(5)::before {\n    content: \"5\";\n}\n.bt:nth-child(6)::before {\n    content: \"6\";\n}\n.bt:nth-child(7)::before {\n    content: \"7\";\n}\n.bt:nth-child(8)::before {\n    content: \"8\";\n}\n.bt:nth-child(9)::before {\n    content: \"9\";\n}\n\n.bt:hover {\n    filter: brightness(97%);\n}\n.bt:focus {\n    filter: brightness(85%);\n}\n\n.inva {\n    display:none;\n}\n.invap {\n    display:none;\n}\n.kp {\n    display: none;\n}\n.kpmcon:not(:has(a.kpnfin:target)) .kp_ {\n    display: grid;\n}\n\n.invap:has(.inva:target) + .kp {\n    display: grid;\n}\n.kpmcon:not(:has(#c38:target)):has(.kpfin:target)::after {\n    content: \"Incorrect Passcode\";\n    color: red;\n}\n.bt {\n    border: 1px solid black;\n}\n.bt:nth-child(1) {\n    color: red;\n}\n.bt:nth-child(2) {\n    color: red;\n}\n.bt:nth-child(4) {\n    color: red;\n}\n\n.secret {\n\tdisplay: none;\n}\n.kpmcon:has(#c124:target)~.secret {\n\tdisplay: block;\n}\n.secret[open] {\n\tdisplay: block;\n}\n.secret summary::marker {\n\tcontent: \"🔑 click to open\";\n}\n.secret summary:hover {\n\tcolor: green;\n}\n.secret[open] summary::marker {\n\tcontent: \"🔑 click to close\";\n}\n.secret[open] summary:hover {\n\tcolor: red;\n}\n.kpmcon:has(~.secret[open]) {\n\tdisplay: none;\n}\n");
}
