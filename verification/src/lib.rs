//! Generates a passcode-locked keypad in plain HTML and CSS.
pub mod ao3_css_transform;
pub mod ao3_html_transform;
pub mod keypad;
pub mod navigation;
pub mod pages;
pub mod regex_ops;
pub mod text;
