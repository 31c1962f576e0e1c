use pr_creator::errors::ScriptErrors;
use pr_creator::utils::{capitalize_word, remove_ansi_codes};

#[test]
fn capitalize_word_upper_cases_first() {
    assert_eq!(capitalize_word("hello").unwrap(), "Hello");
    assert_eq!(capitalize_word("éa").unwrap(), "Éa");
    assert_eq!(capitalize_word("ABC").unwrap(), "ABC");
}

#[test]
fn capitalize_word_rejects_empty() {
    match capitalize_word("") {
        Err(ScriptErrors::ConfigError(m)) => assert_eq!(m, "Empty string"),
        _ => panic!("expected a configuration error"),
    }
}

#[test]
fn remove_ansi_codes_strips_sequences() {
    assert_eq!(remove_ansi_codes("\u{1b}[1mbold\u{1b}[0m text").unwrap(), "bold text");
    assert_eq!(remove_ansi_codes("plain").unwrap(), "plain");
    assert_eq!(remove_ansi_codes("").unwrap(), "");
}

#[test]
fn remove_ansi_codes_until_none_left() {
    assert_eq!(remove_ansi_codes("\u{1b}\u{1b}[0m[0m").unwrap(), "");
    let once = remove_ansi_codes("a\u{1b}[1;31mb\u{1b}[0mc").unwrap();
    assert_eq!(once, "abc");
    assert_eq!(remove_ansi_codes(&once).unwrap(), once);
}
