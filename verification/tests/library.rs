use bfcli::cli::{cmd_appendrc, cmd_source, parse_command, AppendRcCommand, Command, SourceCommand};
use bfcli::config::{load_extensions, parse_extensions, DEFAULT_CONFIG};
use bfcli::files::{file_extension, plan_directory, DirEntryInfo, EntryKind, Visit};
use bfcli::paths::{bfcli_dir, detect_rc_file, join_path};
use bfcli::rc::{
    bflist_rc_line, cmd_appendrc_eval, expand_home_refs, rc_already_has_line, rc_append_text,
    AppendRcAction,
    BFLIST_RC_LINE,
};
use bfcli::script::{
    build_sourceable_script, cmd_source_eval, cmd_source_print, decimal_string, shell_escape,
    update_status, SCRIPT_PREAMBLE,
};

fn strings(items: &[&str]) -> Vec<String> {
    items.iter().map(|s| s.to_string()).collect()
}

#[test]
fn default_config_gives_default_extensions() {
    assert_eq!(parse_extensions(DEFAULT_CONFIG), vec!["", ".sh"]);
}

#[test]
fn parse_extensions_without_key_falls_back() {
    assert_eq!(parse_extensions("{}"), vec!["", ".sh"]);
    assert_eq!(parse_extensions(""), vec!["", ".sh"]);
    assert_eq!(parse_extensions(r#"{ "ext": [".zsh"] }"#), vec!["", ".sh"]);
}

#[test]
fn parse_extensions_without_brackets_falls_back() {
    assert_eq!(parse_extensions(r#"{ "extensions": ".zsh" }"#), vec!["", ".sh"]);
    assert_eq!(parse_extensions(r#"{ "extensions": [".zsh" }"#), vec!["", ".sh"]);
}

#[test]
fn parse_extensions_unterminated_string_takes_rest() {
    assert_eq!(parse_extensions(r#"{ "extensions": [".a", ".b] }"#), vec![".a", ".b"]);
}

#[test]
fn parse_extensions_ignores_unquoted_items() {
    assert_eq!(parse_extensions(r#"{ "extensions": [1, ".fish", x] }"#), vec![".fish"]);
    assert_eq!(parse_extensions(r#"{"extensions":[".a",".b",".c"]}"#), vec![".a", ".b", ".c"]);
}

#[test]
fn load_extensions_defaults_when_unreadable() {
    assert_eq!(load_extensions(None), vec!["", ".sh"]);
    assert_eq!(load_extensions(Some(r#"{ "extensions": [".zsh"] }"#)), vec![".zsh"]);
}

#[test]
fn file_extension_edge_cases() {
    assert_eq!(file_extension(""), Some(""));
    assert_eq!(file_extension("foo."), Some("."));
    assert_eq!(file_extension("a.b.c"), Some(".c"));
    assert_eq!(file_extension("."), None);
    assert_eq!(file_extension("ünï.cödé"), Some(".cödé"));
}

fn entry(name: &str, kind: EntryKind) -> DirEntryInfo {
    DirEntryInfo { name: name.to_string(), kind }
}

#[test]
fn plan_directory_sorts_and_filters() {
    let entries = vec![
        entry("zeta.sh", EntryKind::File),
        entry("lib", EntryKind::Directory),
        entry(".hidden_dir", EntryKind::Directory),
        entry("alpha", EntryKind::File),
        entry("notes.txt", EntryKind::File),
        entry(".secret.sh", EntryKind::File),
        entry("link.sh", EntryKind::Other),
        entry("beta.sh", EntryKind::File),
    ];
    let exts = strings(&["", ".sh"]);
    let plan = plan_directory(&entries, &exts);
    assert_eq!(
        plan,
        vec![Visit::Include(3), Visit::Include(7), Visit::Descend(1), Visit::Include(0)]
    );
}

#[test]
fn plan_directory_keeps_listing_order_on_equal_names() {
    let entries = vec![entry("b", EntryKind::File), entry("a", EntryKind::File), entry("b", EntryKind::File)];
    let plan = plan_directory(&entries, &strings(&[""]));
    assert_eq!(plan, vec![Visit::Include(1), Visit::Include(0), Visit::Include(2)]);
}

#[test]
fn plan_directory_uses_byte_order() {
    let entries = vec![
        entry("b", EntryKind::File),
        entry("B", EntryKind::File),
        entry("ab", EntryKind::File),
        entry("a", EntryKind::File),
    ];
    let plan = plan_directory(&entries, &strings(&[""]));
    assert_eq!(plan, vec![Visit::Include(1), Visit::Include(3), Visit::Include(2), Visit::Include(0)]);
}

#[test]
fn plan_directory_empty() {
    assert_eq!(plan_directory(&Vec::new(), &strings(&[".sh"])), Vec::<Visit>::new());
}

#[test]
fn shell_escape_quotes_and_backslashes() {
    assert_eq!(shell_escape(r#"/a "b"\c"#), r#"/a \"b\"\\c"#);
    assert_eq!(shell_escape("plain/path"), "plain/path");
    assert_eq!(shell_escape("$HOME`x`"), "\\$HOME\\`x\\`");
    assert_eq!(shell_escape("$(rm -rf ~).sh"), "\\$(rm -rf ~).sh");
}

#[test]
fn build_script_for_no_files() {
    let script = build_sourceable_script(&[]);
    assert_eq!(script, format!("{}unset -f _bfcli_safe_source\n", SCRIPT_PREAMBLE));
}

#[test]
fn build_script_sources_each_file_in_order() {
    let files = strings(&["/h/.bfcli/src_files/a.sh", "/h/.bfcli/src_files/q\"x"]);
    let script = build_sourceable_script(&files);
    let expected = format!(
        "{}_bfcli_safe_source \"/h/.bfcli/src_files/a.sh\"\n_bfcli_safe_source \"/h/.bfcli/src_files/q\\\"x\"\nunset -f _bfcli_safe_source\n",
        SCRIPT_PREAMBLE
    );
    assert_eq!(script, expected);
}

#[test]
fn script_preamble_text() {
    assert!(SCRIPT_PREAMBLE.starts_with("# Generated by bfcli - do not edit manually\n_bfcli_safe_source() {\nlocal _bfcli_f=\"$1\"\n"));
    assert!(SCRIPT_PREAMBLE.contains("[ \"$_bfcli_rc\" -ne 0 ] && \\\nprintf '[bfcli] warning: error sourcing (exit %s): %s\\n'"));
    assert!(SCRIPT_PREAMBLE.ends_with("return 0\n}\n"));
}

#[test]
fn decimal_and_status() {
    assert_eq!(decimal_string(0), "0");
    assert_eq!(decimal_string(7), "7");
    assert_eq!(decimal_string(10), "10");
    assert_eq!(decimal_string(1203), "1203");
    assert_eq!(decimal_string(usize::MAX), usize::MAX.to_string());
    assert_eq!(update_status(3), "Updated: 3 files");
    assert_eq!(update_status(0), "Updated: 0 files");
}

#[test]
fn source_print_and_eval_agree() {
    let files = strings(&["/x/a", "/x/b.sh"]);
    let p = cmd_source_print(&files);
    let e = cmd_source_eval(&files);
    assert_eq!(p.status, "Updated: 2 files");
    assert_eq!(p.script, build_sourceable_script(&files));
    assert_eq!(e.status, p.status);
    assert_eq!(e.script, p.script);
}

#[test]
fn expand_home_refs_all_spellings() {
    assert_eq!(expand_home_refs("~/x", "/h"), "/h/x");
    assert_eq!(expand_home_refs("$HOME/x", "/h"), "/h/x");
    assert_eq!(expand_home_refs("${HOME}/x", "/h"), "/h/x");
    assert_eq!(expand_home_refs("a~b$HOME c${HOME}", "H"), "aHbH cH");
    // what is put in is not scanned again
    assert_eq!(expand_home_refs("~", "~~"), "~~");
    assert_eq!(expand_home_refs("$HOME", "/a~"), "/a~");
    assert_eq!(expand_home_refs("${HOME}", "$HOME"), "$HOME");
    assert_eq!(expand_home_refs("$HOM", "/h"), "$HOM");
    assert_eq!(expand_home_refs("${HOME", "/h"), "${HOME");
}

#[test]
fn expansion_is_idempotent_for_absolute_home() {
    for text in ["~/a", "$~HOME", "$HOME${HOME}~", "${~}", "plain"] {
        let once = expand_home_refs(text, "/Users/me");
        assert_eq!(expand_home_refs(&once, "/Users/me"), once);
        assert!(!once.contains('~') && !once.contains("$HOME") && !once.contains("${HOME}"));
    }
}

#[test]
fn bflist_rc_line_text() {
    assert_eq!(bflist_rc_line(), "[ -f ~/.bfcli/.bflist ] && source ~/.bfcli/.bflist");
    assert_eq!(bflist_rc_line(), BFLIST_RC_LINE);
}

#[test]
fn rc_line_found_among_other_lines_and_padded() {
    let home = "/home/u";
    let existing = "export A=1\r\n   [ -f ~/.bfcli/.bflist ] && source ~/.bfcli/.bflist  \r\nalias x=y";
    assert!(rc_already_has_line(existing, home));
    assert!(rc_already_has_line("[ -f ~/.bfcli/.bflist ] && source ~/.bfcli/.bflist", home));
    assert!(!rc_already_has_line("", home));
    assert!(!rc_already_has_line("# [ -f ~/.bfcli/.bflist ] && source ~/.bfcli/.bflist\n", home));
    assert!(!rc_already_has_line("[ -f /other/.bfcli/.bflist ] && source /other/.bfcli/.bflist\n", home));
}

#[test]
fn append_text_ends_the_last_line_first() {
    let line = format!("{}\n", BFLIST_RC_LINE);
    assert_eq!(rc_append_text(""), line);
    assert_eq!(rc_append_text("a\n"), line);
    assert_eq!(rc_append_text("export A=1"), format!("\n{}", line));
}

#[test]
fn appended_line_is_found_again() {
    for existing in ["", "export A=1\n", "a\nb\n", "export A=1", "x\r"] {
        let after = format!("{}{}", existing, rc_append_text(existing));
        assert!(rc_already_has_line(&after, "/Users/me"));
        assert!(rc_already_has_line(&after, "/we~ird$HOME"));
        assert_eq!(cmd_appendrc_eval(false, &after, "/Users/me"), AppendRcAction::AlreadyPresent);
    }
}

#[test]
fn spellings_found_for_any_home() {
    let dollar = "[ -f $HOME/.bfcli/.bflist ] && source $HOME/.bfcli/.bflist\n";
    let braced = "[ -f ${HOME}/.bfcli/.bflist ] && source ${HOME}/.bfcli/.bflist\n";
    for home in ["/home/~me", "/odd$HOME", ""] {
        assert!(rc_already_has_line(dollar, home));
        assert!(rc_already_has_line(braced, home));
    }
}

#[test]
fn appendrc_eval_decisions() {
    let home = "/Users/me";
    let present = "[ -f ~/.bfcli/.bflist ] && source ~/.bfcli/.bflist\n";
    assert_eq!(cmd_appendrc_eval(false, present, home), AppendRcAction::AlreadyPresent);
    assert_eq!(cmd_appendrc_eval(true, present, home), AppendRcAction::Append);
    assert_eq!(cmd_appendrc_eval(false, "export A=1\n", home), AppendRcAction::Append);
    assert_eq!(cmd_appendrc_eval(false, "", home), AppendRcAction::Append);
}

#[test]
fn join_path_cases() {
    assert_eq!(join_path("/home/u", ".bfcli"), "/home/u/.bfcli");
    assert_eq!(join_path("/home/u/", ".bfcli"), "/home/u/.bfcli");
    assert_eq!(join_path("", ".bfcli"), ".bfcli");
    assert_eq!(join_path("/home/u", "/etc"), "/etc");
    assert_eq!(bfcli_dir("/Users/me"), "/Users/me/.bfcli");
}

#[test]
fn detect_rc_file_choices() {
    assert_eq!(detect_rc_file("/h", "/bin/zsh", false), "/h/.zshrc");
    assert_eq!(detect_rc_file("/h", "/usr/local/bin/zsh", true), "/h/.zshrc");
    assert_eq!(detect_rc_file("/h", "/bin/bash", true), "/h/.bash_profile");
    assert_eq!(detect_rc_file("/h", "/bin/bash", false), "/h/.bashrc");
    assert_eq!(detect_rc_file("/h", "", false), "/h/.bashrc");
}

#[test]
fn source_and_appendrc_subcommands() {
    assert_eq!(cmd_source(None), SourceCommand::Help);
    assert_eq!(cmd_source(Some("print")), SourceCommand::Print);
    assert_eq!(cmd_source(Some("eval")), SourceCommand::Eval);
    assert_eq!(cmd_source(Some("shell")), SourceCommand::Shell);
    assert_eq!(cmd_source(Some("nope")), SourceCommand::Unknown);
    assert_eq!(cmd_appendrc(None, false), AppendRcCommand::Help);
    assert_eq!(cmd_appendrc(Some("shell"), true), AppendRcCommand::Shell);
    assert_eq!(cmd_appendrc(Some("eval"), true), AppendRcCommand::Eval(true));
    assert_eq!(cmd_appendrc(Some("eval"), false), AppendRcCommand::Eval(false));
    assert_eq!(cmd_appendrc(Some("print"), false), AppendRcCommand::Unknown);
}

#[test]
fn parse_command_cases() {
    let p = |items: &[&str]| parse_command(&strings(items));
    assert_eq!(p(&["bfcli"]), Command::Help);
    assert_eq!(p(&[]), Command::Help);
    assert_eq!(p(&["bfcli", "init"]), Command::Init);
    assert_eq!(p(&["bfcli", "update"]), Command::Update);
    assert_eq!(p(&["bfcli", "files"]), Command::Files);
    assert_eq!(p(&["bfcli", "config"]), Command::Config);
    assert_eq!(p(&["bfcli", "help"]), Command::Help);
    assert_eq!(p(&["bfcli", "--help"]), Command::Help);
    assert_eq!(p(&["bfcli", "-h"]), Command::Help);
    assert_eq!(p(&["bfcli", "--version"]), Command::Version);
    assert_eq!(p(&["bfcli", "-V"]), Command::Version);
    assert_eq!(p(&["bfcli", "frob"]), Command::Unknown);
    assert_eq!(p(&["bfcli", "source"]), Command::Source(SourceCommand::Help));
    assert_eq!(p(&["bfcli", "source", "eval"]), Command::Source(SourceCommand::Eval));
    assert_eq!(p(&["bfcli", "appendrc", "eval"]), Command::AppendRc(AppendRcCommand::Eval(false)));
    assert_eq!(
        p(&["bfcli", "appendrc", "eval", "x", "--fast"]),
        Command::AppendRc(AppendRcCommand::Eval(true))
    );
    // `--fast` counts only after the subcommand
    assert_eq!(p(&["bfcli", "appendrc", "--fast"]), Command::AppendRc(AppendRcCommand::Unknown));
}
