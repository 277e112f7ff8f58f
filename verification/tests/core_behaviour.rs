use bfcli::config::parse_extensions;
use bfcli::files::file_extension;
use bfcli::rc::rc_already_has_line;

#[test]
fn test_file_extension_hidden() {
    assert_eq!(file_extension(".hidden"), None);
    assert_eq!(file_extension(".bashrc"), None);
}

#[test]
fn test_file_extension_no_ext() {
    assert_eq!(file_extension("foo"), Some(""));
    assert_eq!(file_extension("myfile"), Some(""));
}

#[test]
fn test_file_extension_with_ext() {
    assert_eq!(file_extension("foo.sh"), Some(".sh"));
    assert_eq!(file_extension("foo.bash"), Some(".bash"));
    assert_eq!(file_extension("foo.bar.sh"), Some(".sh"));
}

#[test]
fn test_parse_extensions_basic() {
    let json = r#"{ "extensions": ["", ".sh"] }"#;
    let exts = parse_extensions(json);
    assert_eq!(exts, vec!["", ".sh"]);
}

#[test]
fn test_parse_extensions_empty_array() {
    let json = r#"{ "extensions": [] }"#;
    let exts = parse_extensions(json);
    // falls back to defaults when empty
    assert_eq!(exts, vec!["", ".sh"]);
}

#[test]
fn test_parse_extensions_custom() {
    let json = r#"{ "extensions": [".bash", ".zsh"] }"#;
    let exts = parse_extensions(json);
    assert_eq!(exts, vec![".bash", ".zsh"]);
}

#[test]
fn test_rc_already_has_line_exact_match() {
    let home = "/Users/me";
    let existing = "[ -f ~/.bfcli/.bflist ] && source ~/.bfcli/.bflist\n";
    assert!(rc_already_has_line(existing, home));
}

#[test]
fn test_rc_already_has_line_dollar_home() {
    let home = "/Users/me";
    let existing = "[ -f $HOME/.bfcli/.bflist ] && source $HOME/.bfcli/.bflist\n";
    assert!(rc_already_has_line(existing, home));
}

#[test]
fn test_rc_already_has_line_braced_dollar_home() {
    let home = "/Users/me";
    let existing = "[ -f ${HOME}/.bfcli/.bflist ] && source ${HOME}/.bfcli/.bflist\n";
    assert!(rc_already_has_line(existing, home));
}

#[test]
fn test_rc_already_has_line_absolute_path() {
    let home = "/Users/me";
    let existing = "[ -f /Users/me/.bfcli/.bflist ] && source /Users/me/.bfcli/.bflist\n";
    assert!(rc_already_has_line(existing, home));
}

#[test]
fn test_rc_already_has_line_absent() {
    let home = "/Users/me";
    let existing = "export PATH=$PATH:/usr/local/bin\n";
    assert!(!rc_already_has_line(existing, home));
}
