//! Format token recognition.

use eriksync::ConfigFormat;

#[test]
fn recognizes_the_three_formats() {
    assert_eq!(ConfigFormat::from_str("json"), Some(ConfigFormat::Json));
    assert_eq!(ConfigFormat::from_str("toml"), Some(ConfigFormat::Toml));
    assert_eq!(ConfigFormat::from_str("yaml"), Some(ConfigFormat::Yaml));
}

#[test]
fn yml_is_shorthand_for_yaml() {
    assert_eq!(ConfigFormat::from_str("yml"), Some(ConfigFormat::Yaml));
    assert_eq!(ConfigFormat::from_str("YML"), Some(ConfigFormat::Yaml));
}

#[test]
fn tokens_are_matched_ignoring_ascii_case() {
    assert_eq!(ConfigFormat::from_str("JSON"), Some(ConfigFormat::Json));
    assert_eq!(ConfigFormat::from_str("Toml"), Some(ConfigFormat::Toml));
    assert_eq!(ConfigFormat::from_str("yAmL"), Some(ConfigFormat::Yaml));
}

#[test]
fn unknown_tokens_name_no_format() {
    assert_eq!(ConfigFormat::from_str("xml"), None);
    assert_eq!(ConfigFormat::from_str(""), None);
    assert_eq!(ConfigFormat::from_str("jsonx"), None);
    assert_eq!(ConfigFormat::from_str("yam"), None);
}
