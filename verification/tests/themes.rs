use keypad::keypad::{KeypadConfig, Theme, Themes};

fn theme(colors: &[&str], pattern: [&str; 3]) -> Result<Theme, String> {
    Theme::new(
        String::new(),
        colors.iter().map(|c| c.to_string()).collect(),
        [pattern[0].to_string(), pattern[1].to_string(), pattern[2].to_string()],
    )
}

#[test]
fn theme_pattern_of_known_colors_accepted() {
    assert!(theme(&["a", "b"], ["010", "1", ""]).is_ok());
}

#[test]
fn theme_pattern_with_letter_refused() {
    assert_eq!(theme(&["a"], ["0", "x", "0"]).err(), Some("malformed pattern in theme".to_string()));
}

#[test]
fn theme_pattern_with_unknown_color_refused() {
    assert_eq!(theme(&["a", "b"], ["012", "", ""]).err(), Some("malformed pattern in theme".to_string()));
    assert_eq!(theme(&[], ["", "", "0"]).err(), Some("malformed pattern in theme".to_string()));
}

#[test]
fn theme_empty_pattern_needs_no_color() {
    assert!(theme(&[], ["", "", ""]).is_ok());
}

#[test]
fn themes_insert_then_get() {
    let mut themes = Themes::new();
    assert!(themes.get("default").is_none());
    themes.insert("default".to_string(), theme(&["a"], ["0", "", ""]).unwrap());
    themes.insert("dark".to_string(), theme(&["b", "c"], ["1", "", ""]).unwrap());
    assert!(themes.get("default").is_some());
    assert!(themes.get("dark").is_some());
    assert!(themes.get("light").is_none());
    let mut names = themes.names();
    names.sort();
    assert_eq!(names, vec!["dark".to_string(), "default".to_string()]);
}

#[test]
fn themes_insert_replaces() {
    let mut themes = Themes::new();
    themes.insert("t".to_string(), theme(&["a"], ["", "", ""]).unwrap());
    themes.insert("t".to_string(), theme(&["a"], ["", "", ""]).unwrap());
    assert_eq!(themes.names(), vec!["t".to_string()]);
}

fn table() -> Themes {
    let mut themes = Themes::new();
    themes.insert("default".to_string(), theme(&["a"], ["0", "", ""]).unwrap());
    themes
}

fn config_err(passcode: &str, name: &str) -> String {
    match KeypadConfig::new(passcode, name, &table()) {
        Ok(_) => panic!("accepted"),
        Err(e) => e,
    }
}

#[test]
fn config_accepts_three_digits() {
    let k = KeypadConfig::new("123", "default", &table()).unwrap();
    assert_eq!(k.config().passcode.get(), "123");
}

#[test]
fn config_refuses_four_digits() {
    assert_eq!(config_err("1234", "default"), "password must be at most 3 digits long for use in ao3");
}

#[test]
fn config_counts_bytes() {
    assert_eq!(config_err("\u{e9}\u{e9}", "default"), "password must be at most 3 digits long for use in ao3");
    assert_eq!(config_err("\u{e9}1", "default"), "'\u{e9}1' is not a valid passcode. please use only numbers 1-9");
}

#[test]
fn config_refuses_bad_passcode_before_theme() {
    assert_eq!(config_err("1", "nope"), "please use more than 1 digit");
}

#[test]
fn config_refuses_unknown_theme() {
    assert_eq!(config_err("12", "nope"), "provide a valid theme");
}
