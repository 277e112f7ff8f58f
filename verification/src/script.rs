use vstd::prelude::*;
use vstd::string::*;
use crate::text::{chars_of, extend_chars, push_char, string_of};

verus! {

/// The start of every sourceable script: a helper that sources one file
/// without letting a missing or failing file break the shell.
pub const SCRIPT_PREAMBLE: &'static str = "# Generated by bfcli - do not edit manually\n\
    _bfcli_safe_source() {\n\
    local _bfcli_f=\"$1\"\n\
    if [ ! -f \"$_bfcli_f\" ]; then\n\
    printf '[bfcli] warning: file not found, skipping: %s\\n' \"$_bfcli_f\" >&2\n\
    return 0\n\
    fi\n\
    local _bfcli_opts=\"$-\"\n\
    local _bfcli_pipe=0\n\
    [[ \":${SHELLOPTS}:\" == *:pipefail:* ]] && _bfcli_pipe=1\n\
    set +e +u\n\
    set +o pipefail 2>/dev/null\n\
    source \"$_bfcli_f\"\n\
    local _bfcli_rc=$?\n\
    [[ \"$_bfcli_opts\" == *e* ]] && set -e || set +e\n\
    [[ \"$_bfcli_opts\" == *u* ]] && set -u || set +u\n\
    [ \"$_bfcli_pipe\" -eq 1 ] && set -o pipefail 2>/dev/null\n\
    [ \"$_bfcli_rc\" -ne 0 ] && \\\n\
    printf '[bfcli] warning: error sourcing (exit %s): %s\\n' \"$_bfcli_rc\" \"$_bfcli_f\" >&2\n\
    return 0\n\
    }\n";

/// What opens the line that sources one file.
pub const SOURCE_CALL_OPEN: &'static str = "_bfcli_safe_source \"";

/// What closes the line that sources one file.
pub const SOURCE_CALL_CLOSE: &'static str = "\"\n";

/// The end of every sourceable script: the helper is removed again.
pub const SCRIPT_END: &'static str = "unset -f _bfcli_safe_source\n";

/// The characters that keep a special meaning inside double quotes, so that
/// a backslash must stand before them: `\`, `"`, `$` and `` ` ``.
pub open spec fn special_in_double_quotes(c: char) -> bool {
    c == '\\' || c == '"' || c == '$' || c == '`'
}

/// One character as it stands in a double-quoted shell word: a special one
/// gets a backslash before it.
pub open spec fn escape_char(c: char) -> Seq<char> {
    if special_in_double_quotes(c) {
        seq!['\\', c]
    } else {
        seq![c]
    }
}

/// `s` escaped for use inside a double-quoted shell word.
pub open spec fn shell_escaped(s: Seq<char>) -> Seq<char>
    decreases s.len(),
{
    if s.len() == 0 {
        Seq::empty()
    } else {
        escape_char(s[0]) + shell_escaped(s.skip(1))
    }
}

/// Escaping one more character at the end adds its escape at the end.
pub proof fn lemma_escaped_push(s: Seq<char>, c: char)
    ensures
        shell_escaped(s.push(c)) == shell_escaped(s) + escape_char(c),
    decreases s.len(),
{
    if s.len() == 0 {
        assert(s.push(c).skip(1) =~= Seq::<char>::empty());
        assert(s.push(c)[0] == c);
        assert(shell_escaped(s.push(c).skip(1)) == Seq::<char>::empty());
        assert(escape_char(c) + Seq::<char>::empty() =~= escape_char(c));
    } else {
        assert(s.push(c).skip(1) =~= s.skip(1).push(c));
        assert(s.push(c)[0] == s[0]);
        lemma_escaped_push(s.skip(1), c);
        assert(escape_char(s[0]) + (shell_escaped(s.skip(1)) + escape_char(c)) =~= (escape_char(s[0])
            + shell_escaped(s.skip(1))) + escape_char(c));
    }
}

/// Escapes a path for use inside a double-quoted shell string: `\`, `"`, `$`
/// and `` ` `` each get a backslash before them, so that the shell neither
/// ends the string early nor expands anything in it.
pub fn shell_escape(path: &str) -> (escaped: String)
    ensures
        escaped@ == shell_escaped(path@),
{
    let cs = chars_of(path);
    let n = cs.len();
    let mut out = String::new();
    assert(path@.take(0) =~= Seq::<char>::empty());
    for i in 0..n
        invariant
            n == path@.len(),
            cs@ == path@,
            out@ == shell_escaped(path@.take(i as int)),
    {
        let c = cs[i];
        assert(path@.take(i + 1) =~= path@.take(i as int).push(c));
        proof {
            lemma_escaped_push(path@.take(i as int), c);
        }
        if c == '\\' || c == '"' || c == '$' || c == '`' {
            push_char(&mut out, '\\');
            push_char(&mut out, c);
            assert(out@ =~= shell_escaped(path@.take(i as int)) + escape_char(c));
        } else {
            push_char(&mut out, c);
            assert(out@ =~= shell_escaped(path@.take(i as int)) + escape_char(c));
        }
    }
    assert(path@.take(n as int) =~= path@);
    out
}

} // verus!

verus! {

/// How the shell reads the inside of a double-quoted word from `t`, which
/// starts just after the opening quote: a backslash before `$`, `` ` ``,
/// `"`, `\` or a newline quotes that character (a quoted newline is dropped),
/// an unquoted `$` or `` ` `` starts a parameter, arithmetic or command
/// expansion, any other character stands for itself, and the first unquoted
/// `"` ends the word. Gives the literal characters read and how many were
/// consumed, the closing quote included; `None` where the word never ends or
/// holds an expansion, so that what it stands for is not its literal text.
pub open spec fn read_double_quoted(t: Seq<char>) -> Option<(Seq<char>, int)>
    decreases t.len(),
{
    if t.len() == 0 {
        None
    } else if t[0] == '"' {
        Some((Seq::empty(), 1))
    } else if t[0] == '$' || t[0] == '`' {
        None
    } else if t[0] == '\\' && t.len() >= 2 && (t[1] == '\\' || t[1] == '"' || t[1] == '$' || t[1]
        == '`' || t[1] == '\n') {
        match read_double_quoted(t.skip(2)) {
            Some((v, n)) => Some(
                (
                    if t[1] == '\n' {
                        v
                    } else {
                        seq![t[1]] + v
                    },
                    n + 2,
                ),
            ),
            None => None,
        }
    } else {
        match read_double_quoted(t.skip(1)) {
            Some((v, n)) => Some((seq![t[0]] + v, n + 1)),
            None => None,
        }
    }
}

/// An escaped path between double quotes is one shell word that holds no
/// expansion and whose backslash escapes, undone, give back the path: the
/// word ends right at the closing quote, whatever follows.
pub proof fn law_escaped_path_reads_back(path: Seq<char>, rest: Seq<char>)
    ensures
        read_double_quoted(shell_escaped(path) + seq!['"'] + rest) == Some(
            (path, shell_escaped(path).len() as int + 1),
        ),
    decreases path.len(),
{
    let t = shell_escaped(path) + seq!['"'] + rest;
    if path.len() == 0 {
        assert(t =~= seq!['"'] + rest);
        assert(t[0] == '"');
        assert(path =~= Seq::<char>::empty());
    } else {
        let c = path[0];
        let e = shell_escaped(path.skip(1));
        law_escaped_path_reads_back(path.skip(1), rest);
        assert(t =~= escape_char(c) + (e + seq!['"'] + rest));
        if special_in_double_quotes(c) {
            assert(t[0] == '\\' && t[1] == c);
            assert(t.skip(2) =~= e + seq!['"'] + rest);
        } else {
            assert(t[0] == c);
            assert(t.skip(1) =~= e + seq!['"'] + rest);
        }
        assert(seq![c] + path.skip(1) =~= path);
    }
}

/// The line of the script that sources one file.
pub open spec fn source_line(path: Seq<char>) -> Seq<char> {
    SOURCE_CALL_OPEN@ + shell_escaped(path) + SOURCE_CALL_CLOSE@
}

/// The lines that source each file, in order.
pub open spec fn source_lines(files: Seq<Seq<char>>) -> Seq<char>
    decreases files.len(),
{
    if files.len() == 0 {
        Seq::empty()
    } else {
        source_lines(files.drop_last()) + source_line(files.last())
    }
}

/// The sourceable script for `files`: the helper, one line per file in
/// order, and the helper's removal.
pub open spec fn sourceable_script(files: Seq<Seq<char>>) -> Seq<char> {
    SCRIPT_PREAMBLE@ + source_lines(files) + SCRIPT_END@
}

/// Builds the sourceable script for the given files. Each file is sourced
/// through a wrapper, so that a missing file or one that fails gives a
/// warning and never ends the shell.
pub fn build_sourceable_script(files: &[String]) -> (script: String)
    ensures
        script@ == sourceable_script(files.deep_view()),
{
    let mut content = String::from_str(SCRIPT_PREAMBLE);
    let n = files.len();
    let ghost paths = files.deep_view();
    assert(paths.take(0) =~= Seq::<Seq<char>>::empty());
    assert(content@ =~= SCRIPT_PREAMBLE@ + source_lines(paths.take(0)));
    for i in 0..n
        invariant
            n == files@.len(),
            paths == files.deep_view(),
            content@ == SCRIPT_PREAMBLE@ + source_lines(paths.take(i as int)),
    {
        let escaped = shell_escape(files[i].as_str());
        assert(paths.take(i + 1).drop_last() =~= paths.take(i as int));
        assert(paths.take(i + 1).last() == files@[i as int]@);
        content.append(SOURCE_CALL_OPEN);
        content.append(escaped.as_str());
        content.append(SOURCE_CALL_CLOSE);
        assert(content@ =~= SCRIPT_PREAMBLE@ + source_lines(paths.take(i + 1)));
    }
    assert(paths.take(n as int) =~= paths);
    content.append(SCRIPT_END);
    content
}

} // verus!

verus! {

/// The decimal digit for `d < 10`.
pub open spec fn digit_char(d: nat) -> char {
    if d == 0 {
        '0'
    } else if d == 1 {
        '1'
    } else if d == 2 {
        '2'
    } else if d == 3 {
        '3'
    } else if d == 4 {
        '4'
    } else if d == 5 {
        '5'
    } else if d == 6 {
        '6'
    } else if d == 7 {
        '7'
    } else if d == 8 {
        '8'
    } else {
        '9'
    }
}

/// `n` written in decimal, without leading zeros (as `{}` formats it).
pub open spec fn decimal(n: nat) -> Seq<char>
    decreases n,
{
    if n < 10 {
        seq![digit_char(n)]
    } else {
        decimal(n / 10).push(digit_char(n % 10))
    }
}

fn digit(d: usize) -> (c: char)
    requires
        d < 10,
    ensures
        c == digit_char(d as nat),
{
    if d == 0 {
        '0'
    } else if d == 1 {
        '1'
    } else if d == 2 {
        '2'
    } else if d == 3 {
        '3'
    } else if d == 4 {
        '4'
    } else if d == 5 {
        '5'
    } else if d == 6 {
        '6'
    } else if d == 7 {
        '7'
    } else if d == 8 {
        '8'
    } else {
        '9'
    }
}

/// `n` written in decimal.
pub fn decimal_string(n: usize) -> (s: String)
    ensures
        s@ == decimal(n as nat),
{
    let mut m: usize = n;
    let mut low: Vec<char> = Vec::new();
    while m >= 10
        invariant
            decimal(n as nat) == decimal(m as nat) + low@,
        decreases m,
    {
        let d = digit(m % 10);
        low.insert(0, d);
        assert(decimal(m as nat) == decimal((m / 10) as nat).push(digit_char((m % 10) as nat)));
        assert(decimal((m / 10) as nat).push(d) + low@.skip(1) =~= decimal((m / 10) as nat) + low@);
        m = m / 10;
    }
    let mut all: Vec<char> = vec![digit(m)];
    extend_chars(&mut all, low.as_slice());
    string_of(all.as_slice())
}

/// What `update` reports: `Updated: N files`.
pub open spec fn update_report(count: nat) -> Seq<char> {
    UPDATED_OPEN@ + decimal(count) + UPDATED_CLOSE@
}

/// What opens the report of an update.
pub const UPDATED_OPEN: &'static str = "Updated: ";

/// What closes the report of an update.
pub const UPDATED_CLOSE: &'static str = " files";

/// The report of an update that found `count` files.
pub fn update_status(count: usize) -> (report: String)
    ensures
        report@ == update_report(count as nat),
{
    let mut report = String::from_str(UPDATED_OPEN);
    let digits = decimal_string(count);
    report.append(digits.as_str());
    report.append(UPDATED_CLOSE);
    report
}

/// What `source print` and `source eval` emit for the files an update found:
/// the report (for standard error) and the script (for standard output).
pub struct SourceOutput {
    pub status: String,
    pub script: String,
}

/// `source print`: the report and the sourceable script for `files`.
pub fn cmd_source_print(files: &[String]) -> (out: SourceOutput)
    ensures
        out.status@ == update_report(files@.len()),
        out.script@ == sourceable_script(files.deep_view()),
{
    SourceOutput { status: update_status(files.len()), script: build_sourceable_script(files) }
}

/// `source eval`: the same output as `source print`, meant for `eval`.
pub fn cmd_source_eval(files: &[String]) -> (out: SourceOutput)
    ensures
        out.status@ == update_report(files@.len()),
        out.script@ == sourceable_script(files.deep_view()),
{
    cmd_source_print(files)
}

} // verus!

verus! {

/// In the line that sources `path`, the double-quoted word after the helper's
/// name reads back as `path`, and ends where the line's closing quote stands.
pub proof fn law_source_line_passes_path(path: Seq<char>)
    ensures
        source_line(path).skip(SOURCE_CALL_OPEN@.len() as int) == shell_escaped(path) + seq!['"']
            + seq!['\n'],
        read_double_quoted(source_line(path).skip(SOURCE_CALL_OPEN@.len() as int)) == Some(
            (path, shell_escaped(path).len() as int + 1),
        ),
{
    reveal_strlit("\"\n");
    assert(SOURCE_CALL_CLOSE@ =~= seq!['"', '\n']);
    assert(source_line(path).skip(SOURCE_CALL_OPEN@.len() as int) =~= shell_escaped(path) + seq!['"']
        + seq!['\n']);
    law_escaped_path_reads_back(path, seq!['\n']);
}

} // verus!

verus! {

/// The number a text of decimal digits stands for.
pub open spec fn decimal_value(s: Seq<char>) -> int
    decreases s.len(),
{
    if s.len() == 0 {
        0
    } else {
        decimal_value(s.drop_last()) * 10 + (s.last() as int - '0' as int)
    }
}

/// `decimal(n)` is made of digits, reads back as `n`, and starts with `0`
/// only for `0` itself.
pub proof fn law_decimal_reads_back(n: nat)
    ensures
        decimal(n).len() > 0,
        forall|k: int| 0 <= k < decimal(n).len() ==> '0' <= #[trigger] decimal(n)[k] <= '9',
        decimal_value(decimal(n)) == n,
        decimal(n)[0] == '0' ==> n == 0,
    decreases n,
{
    let d = digit_char(n % 10);
    assert(d as int - '0' as int == n % 10 && '0' <= d <= '9');
    if n >= 10 {
        law_decimal_reads_back(n / 10);
        let s = decimal(n / 10);
        assert(decimal(n) == s.push(d));
        assert(s.push(d).drop_last() =~= s);
        assert(s.push(d).last() == d);
        assert(decimal_value(decimal(n)) == decimal_value(s) * 10 + (d as int - '0' as int));
        assert((n / 10) * 10 + n % 10 == n);
        assert(decimal(n)[0] == s[0]);
        assert forall|k: int| 0 <= k < decimal(n).len() implies '0' <= #[trigger] decimal(n)[k] <= '9' by {
            if k < s.len() {
                assert(decimal(n)[k] == s[k]);
            }
        }
    } else {
        assert(decimal(n) == seq![digit_char(n)]);
        assert(seq![digit_char(n)].drop_last() =~= Seq::<char>::empty());
        assert(seq![digit_char(n)].last() == digit_char(n));
        assert(n % 10 == n);
        assert(decimal_value(Seq::<char>::empty()) == 0);
    }
}

} // verus!

verus! {

/// The script's lines follow the files in order: the first file's line
/// comes first, then the lines of the rest.
pub proof fn law_source_lines_in_order(first: Seq<char>, rest: Seq<Seq<char>>)
    ensures
        source_lines(Seq::empty()) == Seq::<char>::empty(),
        source_lines(seq![first] + rest) == source_line(first) + source_lines(rest),
    decreases rest.len(),
{
    let all = seq![first] + rest;
    if rest.len() == 0 {
        assert(all =~= seq![first]);
        assert(all.drop_last() =~= Seq::<Seq<char>>::empty());
        assert(all.last() == first);
        assert(source_lines(all.drop_last()) == Seq::<char>::empty());
        assert(source_lines(rest) == Seq::<char>::empty());
        assert(source_line(first) + Seq::<char>::empty() =~= source_line(first));
        assert(Seq::<char>::empty() + source_line(first) =~= source_line(first));
    } else {
        law_source_lines_in_order(first, rest.drop_last());
        assert(all.drop_last() =~= seq![first] + rest.drop_last());
        assert(all.last() == rest.last());
        assert(source_lines(all) == source_lines(all.drop_last()) + source_line(all.last()));
        assert(source_lines(rest) == source_lines(rest.drop_last()) + source_line(rest.last()));
        assert(source_line(first) + source_lines(rest.drop_last()) + source_line(rest.last())
            =~= source_line(first) + (source_lines(rest.drop_last()) + source_line(rest.last())));
    }
}

} // verus!
