use vstd::prelude::*;
use vstd::string::*;
use crate::text::{
    chars_equal, chars_of, extend_chars, find, is_white_space, lemma_concat_lacks, lemma_find_first,
    lemma_lines_append, lemma_lines_first, lemma_occurs_char, lines, lines_exec, occurs_at,
    lemma_lines_lack, lemma_trim_end_white_suffix, lemma_trim_lacks, lemma_trim_start_white_prefix,
    occurs_at_exec, push_char,
    string_of, strip_cr, trim, trim_end, trim_exec, trim_start,
};

verus! {

/// The line added to a shell rc file to source `.bflist` in every new shell.
pub const BFLIST_RC_LINE: &'static str = "[ -f ~/.bfcli/.bflist ] && source ~/.bfcli/.bflist";

/// What comes before the first home reference in the rc line.
pub open spec fn rc_head() -> Seq<char> {
    seq!['[', ' ', '-', 'f', ' ']
}

/// What comes between the two home references in the rc line.
pub open spec fn rc_middle() -> Seq<char> {
    seq!['/', '.', 'b', 'f', 'c', 'l', 'i', '/', '.', 'b', 'f', 'l', 'i', 's', 't', ' ', ']', ' ', '&', '&', ' ', 's', 'o', 'u', 'r', 'c', 'e', ' ']
}

/// What comes after the second home reference in the rc line.
pub open spec fn rc_tail() -> Seq<char> {
    seq!['/', '.', 'b', 'f', 'c', 'l', 'i', '/', '.', 'b', 'f', 'l', 'i', 's', 't']
}

/// The rc line with the home directory written as `home`.
pub open spec fn rc_line_with(home: Seq<char>) -> Seq<char> {
    rc_head() + home + rc_middle() + home + rc_tail()
}

pub proof fn lemma_rc_line_shape()
    ensures
        BFLIST_RC_LINE@ == rc_line_with(seq!['~']),
{
    reveal_strlit("[ -f ~/.bfcli/.bflist ] && source ~/.bfcli/.bflist");
    assert(BFLIST_RC_LINE@ =~= rc_line_with(seq!['~']));
}

pub proof fn lemma_rc_parts_lack(c: char)
    requires
        c == '$' || c == '~' || c == '{' || c == '\n',
    ensures
        !rc_head().contains(c),
        !rc_middle().contains(c),
        !rc_tail().contains(c),
{
    assert forall|i: int| 0 <= i < rc_head().len() implies rc_head()[i] != c by {}
    assert forall|i: int| 0 <= i < rc_middle().len() implies rc_middle()[i] != c by {}
    assert forall|i: int| 0 <= i < rc_tail().len() implies rc_tail()[i] != c by {}
}

} // verus!

verus! {

/// `${HOME}`.
pub open spec fn braced_home_ref() -> Seq<char> {
    seq!['$', '{', 'H', 'O', 'M', 'E', '}']
}

/// `$HOME`.
pub open spec fn home_ref() -> Seq<char> {
    seq!['$', 'H', 'O', 'M', 'E']
}

/// `~`.
pub open spec fn tilde() -> Seq<char> {
    seq!['~']
}

/// `text` with each home reference (`${HOME}`, `$HOME` or `~`) replaced by
/// `home`, in one scan from the left: at each place `${HOME}` is tried first,
/// then `$HOME`, then `~`, and what is put in is not scanned again.
pub open spec fn expand_home(text: Seq<char>, home: Seq<char>) -> Seq<char>
    decreases text.len(),
{
    if text.len() == 0 {
        Seq::empty()
    } else if occurs_at(text, braced_home_ref(), 0) {
        home + expand_home(text.skip(braced_home_ref().len() as int), home)
    } else if occurs_at(text, home_ref(), 0) {
        home + expand_home(text.skip(home_ref().len() as int), home)
    } else if text[0] == '~' {
        home + expand_home(text.skip(1), home)
    } else {
        seq![text[0]] + expand_home(text.skip(1), home)
    }
}

/// Whether some line of `existing`, with its home references expanded and
/// trimmed, is the rc line with its home references expanded.
pub open spec fn has_rc_line(existing: Seq<char>, home: Seq<char>) -> bool {
    exists|i: int|
        0 <= i < lines(existing).len() && trim(expand_home(#[trigger] lines(existing)[i], home))
            == expand_home(BFLIST_RC_LINE@, home)
}

/// What `appendrc eval` does to the rc file.
#[derive(PartialEq, Eq, Structural, Debug, Clone, Copy)]
pub enum AppendRcAction {
    /// The line is there already: leave the file alone.
    AlreadyPresent,
    /// Append the rc line to the file.
    Append,
}

/// The line to add to a shell rc file to source `.bflist` in every new shell.
pub fn bflist_rc_line() -> (line: String)
    ensures
        line@ == BFLIST_RC_LINE@,
{
    String::from_str(BFLIST_RC_LINE)
}

fn expand_home_chars(text: &[char], home: &[char]) -> (out: Vec<char>)
    ensures
        out@ == expand_home(text@, home@),
{
    let braced: Vec<char> = vec!['$', '{', 'H', 'O', 'M', 'E', '}'];
    let plain: Vec<char> = vec!['$', 'H', 'O', 'M', 'E'];
    assert(braced@ =~= braced_home_ref());
    assert(plain@ =~= home_ref());
    let n = text.len();
    let mut out: Vec<char> = Vec::new();
    let mut i: usize = 0;
    assert(text@.skip(0) =~= text@);
    while i < n
        invariant
            i <= n,
            n == text@.len(),
            braced@ == braced_home_ref(),
            plain@ == home_ref(),
            expand_home(text@, home@) == out@ + expand_home(text@.skip(i as int), home@),
        decreases n - i,
    {
        let ghost rest = text@.skip(i as int);
        let ghost before = out@;
        assert(rest.len() > 0);
        if occurs_at_exec(text, braced.as_slice(), i) {
            assert(rest.subrange(0, 7) =~= text@.subrange(i as int, i + 7));
            extend_chars(&mut out, home);
            assert(rest.skip(7) =~= text@.skip(i + 7));
            assert(before + (home@ + expand_home(rest.skip(7), home@)) =~= out@ + expand_home(
                text@.skip(i + 7),
                home@,
            ));
            i = i + 7;
        } else {
            assert(!occurs_at(rest, braced_home_ref(), 0)) by {
                if 7 <= rest.len() {
                    assert(rest.subrange(0, 7) =~= text@.subrange(i as int, i + 7));
                }
            }
            if occurs_at_exec(text, plain.as_slice(), i) {
                assert(rest.subrange(0, 5) =~= text@.subrange(i as int, i + 5));
                extend_chars(&mut out, home);
                assert(rest.skip(5) =~= text@.skip(i + 5));
                assert(before + (home@ + expand_home(rest.skip(5), home@)) =~= out@ + expand_home(
                    text@.skip(i + 5),
                    home@,
                ));
                i = i + 5;
            } else {
                assert(!occurs_at(rest, home_ref(), 0)) by {
                    if 5 <= rest.len() {
                        assert(rest.subrange(0, 5) =~= text@.subrange(i as int, i + 5));
                    }
                }
                assert(rest.skip(1) =~= text@.skip(i + 1));
                assert(rest[0] == text@[i as int]);
                if text[i] == '~' {
                    extend_chars(&mut out, home);
                    assert(before + (home@ + expand_home(rest.skip(1), home@)) =~= out@
                        + expand_home(text@.skip(i + 1), home@));
                } else {
                    out.push(text[i]);
                    assert(before + (seq![rest[0]] + expand_home(rest.skip(1), home@)) =~= out@
                        + expand_home(text@.skip(i + 1), home@));
                }
                i = i + 1;
            }
        }
    }
    assert(text@.skip(n as int) =~= Seq::<char>::empty());
    assert(out@ + Seq::<char>::empty() =~= out@);
    out
}

/// Expands the home references `${HOME}`, `$HOME` and `~` to `home`, so
/// that the three spellings and the absolute path compare alike.
pub fn expand_home_refs(text: &str, home: &str) -> (out: String)
    ensures
        out@ == expand_home(text@, home@),
{
    let t = chars_of(text);
    let h = chars_of(home);
    let e = expand_home_chars(t.as_slice(), h.as_slice());
    string_of(e.as_slice())
}

/// Whether `existing` (the text of an rc file) already holds a line that
/// sources the same `.bflist`, however its home directory is written.
pub fn rc_already_has_line(existing: &str, home: &str) -> (found: bool)
    ensures
        found == has_rc_line(existing@, home@),
{
    let text = chars_of(existing);
    let h = chars_of(home);
    let line = bflist_rc_line();
    let line_chars = chars_of(line.as_str());
    let target = expand_home_chars(line_chars.as_slice(), h.as_slice());
    let all = lines_exec(text.as_slice());
    let n = all.len();
    for i in 0..n
        invariant
            n == all@.len(),
            all.deep_view() == lines(existing@),
            target@ == expand_home(BFLIST_RC_LINE@, home@),
            h@ == home@,
            forall|k: int|
                0 <= k < i ==> trim(expand_home(lines(existing@)[k], home@)) != target@,
    {
        let l = all[i].as_slice();
        assert(l@ =~= lines(existing@)[i as int]) by {
            assert(all.deep_view()[i as int] == all@[i as int].deep_view());
        }
        let e = expand_home_chars(l, h.as_slice());
        let t = trim_exec(e.as_slice());
        if chars_equal(t, target.as_slice()) {
            assert(0 <= i < lines(existing@).len());
            return true;
        }
    }
    false
}

/// Decides `appendrc eval`: with `fast` the line is appended unconditionally;
/// otherwise only when `existing` (the rc file's text, empty where it could
/// not be read) does not hold it already.
pub fn cmd_appendrc_eval(fast: bool, existing: &str, home: &str) -> (action: AppendRcAction)
    ensures
        action == (if !fast && has_rc_line(existing@, home@) {
            AppendRcAction::AlreadyPresent
        } else {
            AppendRcAction::Append
        }),
{
    if !fast && rc_already_has_line(existing, home) {
        AppendRcAction::AlreadyPresent
    } else {
        AppendRcAction::Append
    }
}

} // verus!

verus! {

/// What `appendrc eval` adds at the end of an rc file whose text is
/// `existing`: a newline first where the last line is not ended, then the rc
/// line and a newline.
pub open spec fn append_text(existing: Seq<char>) -> Seq<char> {
    (if existing.len() > 0 && existing.last() != '\n' {
        seq!['\n']
    } else {
        Seq::empty()
    }) + BFLIST_RC_LINE@ + seq!['\n']
}

/// The text to append to an rc file whose text is `existing`, so that the rc
/// line stands on a line of its own.
pub fn rc_append_text(existing: &str) -> (text: String)
    ensures
        text@ == append_text(existing@),
{
    let cs = chars_of(existing);
    let mut text = String::new();
    if cs.len() > 0 && cs[cs.len() - 1] != '\n' {
        push_char(&mut text, '\n');
    }
    text.append(BFLIST_RC_LINE);
    push_char(&mut text, '\n');
    assert(text@ =~= append_text(existing@));
    text
}

proof fn lemma_rc_line_lacks(t: Seq<char>, c: char)
    requires
        c == '$' || c == '~' || c == '{' || c == '\n',
        !t.contains(c),
    ensures
        !rc_line_with(t).contains(c),
{
    lemma_rc_parts_lack(c);
    lemma_concat_lacks(rc_head(), t, c);
    lemma_concat_lacks(rc_head() + t, rc_middle(), c);
    lemma_concat_lacks(rc_head() + t + rc_middle(), t, c);
    lemma_concat_lacks(rc_head() + t + rc_middle() + t, rc_tail(), c);
}

proof fn lemma_literals()
    ensures
        tilde().contains('~'),
        !tilde().contains('\n'),
        !home_ref().contains('\n'),
        !braced_home_ref().contains('\n'),
        home_ref()[0] == '$',
        braced_home_ref()[0] == '$',
        forall|k: int| 1 <= k < home_ref().len() ==> home_ref()[k] != '/',
        forall|k: int| 1 <= k < braced_home_ref().len() ==> braced_home_ref()[k] != '/',
{
    assert(tilde()[0] == '~');
    assert forall|i: int| 0 <= i < tilde().len() implies tilde()[i] != '\n' by {}
    assert forall|i: int| 0 <= i < home_ref().len() implies home_ref()[i] != '\n' by {}
    assert forall|i: int| 0 <= i < braced_home_ref().len() implies braced_home_ref()[i] != '\n' by {}
}

/// Neither home reference starts inside a text without `$`.
proof fn lemma_no_ref_in_dollar_free(x: Seq<char>, y: Seq<char>)
    requires
        !x.contains('$'),
    ensures
        forall|j: int|
            0 <= j < x.len() ==> !occurs_at(x + y, braced_home_ref(), j) && !occurs_at(
                x + y,
                home_ref(),
                j,
            ),
{
    lemma_literals();
    assert forall|j: int| 0 <= j < x.len() implies !occurs_at(x + y, braced_home_ref(), j)
        && !occurs_at(x + y, home_ref(), j) by {
        assert((x + y)[j] == x[j]);
        if occurs_at(x + y, braced_home_ref(), j) {
            assert((x + y).subrange(j, j + 7)[0] == (x + y)[j]);
        }
        if occurs_at(x + y, home_ref(), j) {
            assert((x + y).subrange(j, j + 5)[0] == (x + y)[j]);
        }
    }
}

/// A prefix in which no home reference starts, and without `~`, is left as
/// it is by the expansion.
proof fn lemma_expand_unchanged_prefix(x: Seq<char>, y: Seq<char>, home: Seq<char>)
    requires
        !x.contains('~'),
        forall|j: int|
            0 <= j < x.len() ==> !occurs_at(x + y, braced_home_ref(), j) && !occurs_at(
                x + y,
                home_ref(),
                j,
            ),
    ensures
        expand_home(x + y, home) == x + expand_home(y, home),
    decreases x.len(),
{
    if x.len() == 0 {
        assert(x + y =~= y);
        assert(x + expand_home(y, home) =~= expand_home(y, home));
    } else {
        let s = x + y;
        assert(s[0] == x[0]);
        assert(!occurs_at(s, braced_home_ref(), 0));
        assert(!occurs_at(s, home_ref(), 0));
        assert(s.skip(1) =~= x.skip(1) + y);
        assert(!x.skip(1).contains('~')) by {
            if x.skip(1).contains('~') {
                let i = choose|i: int| 0 <= i < x.skip(1).len() && x.skip(1)[i] == '~';
                assert(x[i + 1] == '~');
            }
        }
        assert forall|j: int| 0 <= j < x.skip(1).len() implies !occurs_at(
            x.skip(1) + y,
            braced_home_ref(),
            j,
        ) && !occurs_at(x.skip(1) + y, home_ref(), j) by {
            if occurs_at(x.skip(1) + y, braced_home_ref(), j) {
                assert((x.skip(1) + y).subrange(j, j + 7) =~= s.subrange(j + 1, j + 8));
                assert(occurs_at(s, braced_home_ref(), j + 1));
            }
            if occurs_at(x.skip(1) + y, home_ref(), j) {
                assert((x.skip(1) + y).subrange(j, j + 5) =~= s.subrange(j + 1, j + 6));
                assert(occurs_at(s, home_ref(), j + 1));
            }
        }
        lemma_expand_unchanged_prefix(x.skip(1), y, home);
        assert(seq![x[0]] + (x.skip(1) + expand_home(y, home)) =~= x + expand_home(y, home));
    }
}

/// A text without `$` or `~` is left as it is by the expansion.
proof fn lemma_expand_plain_prefix(x: Seq<char>, y: Seq<char>, home: Seq<char>)
    requires
        !x.contains('$'),
        !x.contains('~'),
    ensures
        expand_home(x + y, home) == x + expand_home(y, home),
{
    lemma_no_ref_in_dollar_free(x, y);
    lemma_expand_unchanged_prefix(x, y, home);
}

/// A leading home reference becomes `home`.
proof fn lemma_expand_ref_start(t: Seq<char>, y: Seq<char>, home: Seq<char>)
    requires
        t == tilde() || t == home_ref() || t == braced_home_ref(),
    ensures
        expand_home(t + y, home) == home + expand_home(y, home),
{
    let s = t + y;
    assert(s.skip(t.len() as int) =~= y);
    if t == braced_home_ref() {
        assert(s.subrange(0, 7) =~= braced_home_ref());
    } else if t == home_ref() {
        assert(!occurs_at(s, braced_home_ref(), 0)) by {
            if occurs_at(s, braced_home_ref(), 0) {
                assert(s.subrange(0, 7)[1] == s[1]);
                assert(s[1] == 'H');
                assert(braced_home_ref()[1] == '{');
            }
        }
        assert(s.subrange(0, 5) =~= home_ref());
    } else {
        assert(s[0] == '~');
    }
}

/// A `$`-pattern that does not occur in `x`, and holds no `/` after its
/// `$`, does not start inside `x` when `x` is followed by a `/`.
proof fn lemma_no_straddle(x: Seq<char>, rest: Seq<char>, p: Seq<char>)
    requires
        rest.len() > 0,
        rest[0] == '/',
        p.len() > 1,
        forall|k: int| 1 <= k < p.len() ==> p[k] != '/',
        find(x, p) is None,
    ensures
        forall|j: int| 0 <= j < x.len() ==> !occurs_at(x + rest, p, j),
{
    lemma_find_first(x, p);
    let s = x + rest;
    assert forall|j: int| 0 <= j < x.len() implies !occurs_at(s, p, j) by {
        if occurs_at(s, p, j) {
            if j + p.len() <= x.len() {
                assert(x.subrange(j, j + p.len()) =~= s.subrange(j, j + p.len()));
                assert(occurs_at(x, p, j));
            } else {
                let k = x.len() - j;
                assert(s.subrange(j, j + p.len())[k] == s[x.len() as int]);
                assert(s[x.len() as int] == rest[0]);
            }
        }
    }
}

/// The rc line spelled with `~`, `$HOME` or `${HOME}` expands to the rc line
/// spelled with the home directory.
proof fn lemma_expand_spelled_line(t: Seq<char>, home: Seq<char>)
    requires
        t == tilde() || t == home_ref() || t == braced_home_ref(),
    ensures
        expand_home(rc_line_with(t), home) == rc_line_with(home),
{
    lemma_rc_parts_lack('$');
    lemma_rc_parts_lack('~');
    let h = rc_head();
    let m = rc_middle();
    let tl = rc_tail();
    assert(rc_line_with(t) =~= h + (t + (m + (t + tl))));
    lemma_expand_plain_prefix(h, t + (m + (t + tl)), home);
    lemma_expand_ref_start(t, m + (t + tl), home);
    lemma_expand_plain_prefix(m, t + tl, home);
    lemma_expand_ref_start(t, tl, home);
    lemma_expand_plain_prefix(tl, Seq::empty(), home);
    assert(tl + Seq::<char>::empty() =~= tl);
    assert(h + (home + (m + (home + (tl + Seq::<char>::empty())))) =~= rc_line_with(home));
}

/// The rc line expands to itself spelled with the home directory.
pub proof fn lemma_expand_rc_line(home: Seq<char>)
    ensures
        expand_home(BFLIST_RC_LINE@, home) == rc_line_with(home),
{
    lemma_rc_line_shape();
    lemma_expand_spelled_line(tilde(), home);
}

/// The rc line, spelled with any home, is left whole by `trim`.
proof fn lemma_trim_rc_line(t: Seq<char>)
    ensures
        trim(rc_line_with(t)) == rc_line_with(t),
        rc_line_with(t).len() > 0,
        rc_line_with(t).last() == 't',
{
    let s = rc_line_with(t);
    assert(s[0] == '[');
    assert(s.last() == rc_tail().last());
    assert(!is_white_space('['));
    assert(!is_white_space('t'));
}

/// A line that expands to the rc line, ended by a newline after a text that
/// ends a line, is found.
proof fn lemma_line_found(before: Seq<char>, line: Seq<char>, after: Seq<char>, home: Seq<char>)
    requires
        before.len() == 0 || before.last() == '\n',
        !line.contains('\n'),
        line.len() > 0,
        line.last() == 't',
        trim(expand_home(line, home)) == expand_home(BFLIST_RC_LINE@, home),
    ensures
        has_rc_line(before + line + seq!['\n'] + after, home),
{
    let existing = before + line + seq!['\n'] + after;
    assert(existing =~= before + (line + seq!['\n'] + after));
    lemma_lines_append(before, line + seq!['\n'] + after);
    lemma_lines_first(line, after);
    let i = lines(before).len() as int;
    assert(lines(existing)[i] == strip_cr(line));
    assert(strip_cr(line) == line);
    assert(0 <= i < lines(existing).len());
}

/// A line spelled with `~`, `$HOME` or `${HOME}`, standing on a line of its
/// own, is found, whatever the home directory.
pub proof fn law_spelled_line_is_found(
    before: Seq<char>,
    spelling: Seq<char>,
    after: Seq<char>,
    home: Seq<char>,
)
    requires
        before.len() == 0 || before.last() == '\n',
        spelling == tilde() || spelling == home_ref() || spelling == braced_home_ref(),
    ensures
        has_rc_line(before + rc_line_with(spelling) + seq!['\n'] + after, home),
{
    lemma_literals();
    lemma_expand_rc_line(home);
    lemma_expand_spelled_line(spelling, home);
    lemma_trim_rc_line(home);
    lemma_trim_rc_line(spelling);
    lemma_rc_line_lacks(spelling, '\n');
    lemma_line_found(before, rc_line_with(spelling), after, home);
}

/// A line spelled with the home directory itself, standing on a line of its
/// own, is found, where that directory holds no `~`, no newline, no `$HOME`
/// and no `${HOME}`.
pub proof fn law_absolute_line_is_found(before: Seq<char>, after: Seq<char>, home: Seq<char>)
    requires
        before.len() == 0 || before.last() == '\n',
        !home.contains('~'),
        !home.contains('\n'),
        find(home, home_ref()) is None,
        find(home, braced_home_ref()) is None,
    ensures
        has_rc_line(before + rc_line_with(home) + seq!['\n'] + after, home),
{
    lemma_literals();
    lemma_rc_parts_lack('$');
    lemma_rc_parts_lack('~');
    lemma_expand_rc_line(home);
    let h = rc_head();
    let m = rc_middle();
    let tl = rc_tail();
    let s = rc_line_with(home);
    assert(s =~= h + (home + (m + (home + tl))));
    assert(m[0] == '/' && tl[0] == '/');
    lemma_expand_plain_prefix(h, home + (m + (home + tl)), home);
    lemma_no_straddle(home, m + (home + tl), braced_home_ref());
    lemma_no_straddle(home, m + (home + tl), home_ref());
    lemma_expand_unchanged_prefix(home, m + (home + tl), home);
    lemma_expand_plain_prefix(m, home + tl, home);
    lemma_no_straddle(home, tl, braced_home_ref());
    lemma_no_straddle(home, tl, home_ref());
    lemma_expand_unchanged_prefix(home, tl, home);
    lemma_expand_plain_prefix(tl, Seq::empty(), home);
    assert(h + (home + (m + (home + (tl + Seq::<char>::empty())))) =~= s);
    lemma_trim_rc_line(home);
    lemma_rc_line_lacks(home, '\n');
    lemma_line_found(before, s, after, home);
}

/// After `appendrc eval` appends its text to an rc file, whatever the file
/// held, the line is found there: a second run adds nothing.
pub proof fn law_appended_line_is_found(existing: Seq<char>, home: Seq<char>)
    ensures
        has_rc_line(existing + append_text(existing), home),
{
    lemma_rc_line_shape();
    let before = if existing.len() > 0 && existing.last() != '\n' {
        existing + seq!['\n']
    } else {
        existing
    };
    assert(before.len() == 0 || before.last() == '\n');
    law_spelled_line_is_found(before, tilde(), Seq::empty(), home);
    assert(existing + append_text(existing) =~= before + rc_line_with(tilde()) + seq!['\n']
        + Seq::<char>::empty());
}

} // verus!

verus! {

/// Where a home starting with `/` is put in, the expansion holds a `/`; so
/// a prefix of the expansion without `/` is the same prefix of the text.
proof fn lemma_expand_slashless_prefix(s: Seq<char>, home: Seq<char>, k: int)
    requires
        home.len() > 0,
        home[0] == '/',
        0 <= k <= expand_home(s, home).len(),
        !expand_home(s, home).take(k).contains('/'),
    ensures
        k <= s.len(),
        expand_home(s, home).take(k) == s.take(k),
    decreases s.len(),
{
    let e = expand_home(s, home);
    if k == 0 {
        assert(e.take(0) =~= s.take(0));
    } else {
        assert(s.len() > 0);
        if occurs_at(s, braced_home_ref(), 0) || occurs_at(s, home_ref(), 0) || s[0] == '~' {
            assert(e[0] == '/');
            assert(e.take(k)[0] == '/');
        } else {
            let e1 = expand_home(s.skip(1), home);
            assert(e == seq![s[0]] + e1);
            assert(e1.take(k - 1) =~= e.take(k).skip(1));
            let pre = e1.take(k - 1);
            assert(!pre.contains('/')) by {
                if pre.contains('/') {
                    let i = choose|i: int| 0 <= i < pre.len() && pre[i] == '/';
                    assert(e.take(k)[i + 1] == '/');
                }
            }
            lemma_expand_slashless_prefix(s.skip(1), home, k - 1);
            assert(e.take(k) =~= seq![s[0]] + s.skip(1).take(k - 1));
            assert(s.take(k) =~= seq![s[0]] + s.skip(1).take(k - 1));
        }
    }
}

/// `~`, `$HOME` and `${HOME}`.
pub open spec fn is_home_ref(q: Seq<char>) -> bool {
    q == tilde() || q == home_ref() || q == braced_home_ref()
}

/// With a home that starts with `/` and holds no `~` or `$`, no home
/// reference is left in the expansion.
proof fn lemma_expansion_has_no_refs(s: Seq<char>, home: Seq<char>, q: Seq<char>)
    requires
        home.len() > 0,
        home[0] == '/',
        !home.contains('~'),
        !home.contains('$'),
        is_home_ref(q),
    ensures
        forall|j: int| !occurs_at(expand_home(s, home), q, j),
    decreases s.len(),
{
    let e = expand_home(s, home);
    assert(q[0] == '~' || q[0] == '$') by {
        assert(tilde()[0] == '~');
        assert(home_ref()[0] == '$');
        assert(braced_home_ref()[0] == '$');
    }
    assert(!q.contains('/')) by {
        assert forall|i: int| 0 <= i < tilde().len() implies tilde()[i] != '/' by {}
        assert forall|i: int| 0 <= i < home_ref().len() implies home_ref()[i] != '/' by {}
        assert forall|i: int| 0 <= i < braced_home_ref().len() implies braced_home_ref()[i] != '/' by {}
    }
    if s.len() == 0 {
        assert forall|j: int| !occurs_at(e, q, j) by {}
    } else {
        let m: int = if occurs_at(s, braced_home_ref(), 0) {
            7
        } else if occurs_at(s, home_ref(), 0) {
            5
        } else {
            1
        };
        let replaced = occurs_at(s, braced_home_ref(), 0) || occurs_at(s, home_ref(), 0) || s[0]
            == '~';
        let e1 = expand_home(s.skip(m), home);
        lemma_expansion_has_no_refs(s.skip(m), home, q);
        if replaced {
            assert(e == home + e1);
            assert forall|j: int| !occurs_at(e, q, j) by {
                if occurs_at(e, q, j) {
                    assert(e.subrange(j, j + q.len())[0] == e[j]);
                    if j < home.len() {
                        assert(e[j] == home[j]);
                        assert(home.contains(q[0]));
                    } else {
                        assert(e1.subrange(j - home.len(), j - home.len() + q.len()) =~= e.subrange(
                            j,
                            j + q.len(),
                        ));
                        assert(occurs_at(e1, q, j - home.len()));
                    }
                }
            }
        } else {
            assert(e == seq![s[0]] + e1);
            assert forall|j: int| !occurs_at(e, q, j) by {
                if occurs_at(e, q, j) {
                    if j == 0 {
                        assert(e.take(q.len() as int) =~= q);
                        lemma_expand_slashless_prefix(s, home, q.len() as int);
                        assert(s.subrange(0, q.len() as int) =~= s.take(q.len() as int));
                        assert(occurs_at(s, q, 0));
                        if q == tilde() {
                            assert(s.subrange(0, 1)[0] == s[0]);
                        }
                    } else {
                        assert(e1.subrange(j - 1, j - 1 + q.len()) =~= e.subrange(j, j + q.len()));
                        assert(occurs_at(e1, q, j - 1));
                    }
                }
            }
        }
    }
}

/// A text holding no home reference is left as it is by the expansion.
proof fn lemma_expand_no_refs(s: Seq<char>, home: Seq<char>)
    requires
        forall|j: int|
            !occurs_at(s, tilde(), j) && !occurs_at(s, home_ref(), j) && !occurs_at(
                s,
                braced_home_ref(),
                j,
            ),
    ensures
        expand_home(s, home) == s,
    decreases s.len(),
{
    if s.len() > 0 {
        assert(!occurs_at(s, braced_home_ref(), 0));
        assert(!occurs_at(s, home_ref(), 0));
        lemma_occurs_char(s, '~', 0);
        assert(s[0] != '~');
        assert forall|j: int|
            !occurs_at(s.skip(1), tilde(), j) && !occurs_at(s.skip(1), home_ref(), j) && !occurs_at(
                s.skip(1),
                braced_home_ref(),
                j,
            ) by {
            if 0 <= j {
                if j + 1 <= s.skip(1).len() {
                    assert(s.skip(1).subrange(j, j + 1) =~= s.subrange(j + 1, j + 2));
                }
                if j + 5 <= s.skip(1).len() {
                    assert(s.skip(1).subrange(j, j + 5) =~= s.subrange(j + 1, j + 6));
                }
                if j + 7 <= s.skip(1).len() {
                    assert(s.skip(1).subrange(j, j + 7) =~= s.subrange(j + 1, j + 8));
                }
            }
            assert(!occurs_at(s, tilde(), j + 1));
            assert(!occurs_at(s, home_ref(), j + 1));
            assert(!occurs_at(s, braced_home_ref(), j + 1));
        }
        lemma_expand_no_refs(s.skip(1), home);
        assert(seq![s[0]] + s.skip(1) =~= s);
    }
}

/// With a home directory that starts with `/` and holds no `~` or `$`, the
/// expansion leaves no home reference behind, so expanding again changes
/// nothing.
pub proof fn law_expansion_idempotent(text: Seq<char>, home: Seq<char>)
    requires
        home.len() > 0,
        home[0] == '/',
        !home.contains('~'),
        !home.contains('$'),
    ensures
        !expand_home(text, home).contains('~'),
        find(expand_home(text, home), home_ref()) is None,
        find(expand_home(text, home), braced_home_ref()) is None,
        expand_home(expand_home(text, home), home) == expand_home(text, home),
{
    let e = expand_home(text, home);
    lemma_expansion_has_no_refs(text, home, tilde());
    lemma_expansion_has_no_refs(text, home, home_ref());
    lemma_expansion_has_no_refs(text, home, braced_home_ref());
    assert(!e.contains('~')) by {
        if e.contains('~') {
            let i = choose|i: int| 0 <= i < e.len() && e[i] == '~';
            lemma_occurs_char(e, '~', i);
        }
    }
    lemma_find_first(e, home_ref());
    lemma_find_first(e, braced_home_ref());
    lemma_expand_no_refs(e, home);
}

} // verus!

verus! {

/// White space holds no `$`, `~` or `'['`.
proof fn lemma_white_space_plain(ws: Seq<char>)
    requires
        forall|k: int| 0 <= k < ws.len() ==> is_white_space(ws[k]),
    ensures
        !ws.contains('$'),
        !ws.contains('~'),
{
    assert forall|k: int| 0 <= k < ws.len() implies ws[k] != '$' && ws[k] != '~' by {
        assert(is_white_space(ws[k]));
    }
}

/// The rc line spelled with a home reference, followed by text without `$`
/// or `~`, expands to the rc line spelled with the home directory, followed
/// by that text.
proof fn lemma_expand_spelled_line_then(t: Seq<char>, y: Seq<char>, home: Seq<char>)
    requires
        t == tilde() || t == home_ref() || t == braced_home_ref(),
        !y.contains('$'),
        !y.contains('~'),
    ensures
        expand_home(rc_line_with(t) + y, home) == rc_line_with(home) + y,
{
    lemma_rc_parts_lack('$');
    lemma_rc_parts_lack('~');
    let h = rc_head();
    let m = rc_middle();
    let tl = rc_tail();
    lemma_concat_lacks(tl, y, '$');
    lemma_concat_lacks(tl, y, '~');
    assert(rc_line_with(t) + y =~= h + (t + (m + (t + (tl + y)))));
    lemma_expand_plain_prefix(h, t + (m + (t + (tl + y))), home);
    lemma_expand_ref_start(t, m + (t + (tl + y)), home);
    lemma_expand_plain_prefix(m, t + (tl + y), home);
    lemma_expand_ref_start(t, tl + y, home);
    lemma_expand_plain_prefix(tl + y, Seq::empty(), home);
    assert(tl + y + Seq::<char>::empty() =~= tl + y);
    assert(h + (home + (m + (home + (tl + y)))) =~= rc_line_with(home) + y);
}

/// The rc line spelled with `~`, `$HOME` or `${HOME}`, with any white space
/// (tabs included, newlines not) before and after it, standing on a line of
/// its own, is found, whatever the home directory.
pub proof fn law_padded_line_is_found(
    before: Seq<char>,
    ws1: Seq<char>,
    spelling: Seq<char>,
    ws2: Seq<char>,
    after: Seq<char>,
    home: Seq<char>,
)
    requires
        before.len() == 0 || before.last() == '\n',
        spelling == tilde() || spelling == home_ref() || spelling == braced_home_ref(),
        forall|k: int| 0 <= k < ws1.len() ==> is_white_space(ws1[k]) && ws1[k] != '\n',
        forall|k: int| 0 <= k < ws2.len() ==> is_white_space(ws2[k]) && ws2[k] != '\n',
    ensures
        has_rc_line(before + ws1 + rc_line_with(spelling) + ws2 + seq!['\n'] + after, home),
{
    lemma_literals();
    lemma_expand_rc_line(home);
    let r = rc_line_with(spelling);
    let line = ws1 + r + ws2;
    lemma_trim_rc_line(spelling);
    lemma_trim_rc_line(home);
    lemma_rc_line_lacks(spelling, '\n');
    assert(!ws1.contains('\n'));
    assert(!ws2.contains('\n'));
    lemma_concat_lacks(ws1, r, '\n');
    lemma_concat_lacks(ws1 + r, ws2, '\n');
    let existing = before + line + seq!['\n'] + after;
    assert(existing =~= before + (line + seq!['\n'] + after));
    lemma_lines_append(before, line + seq!['\n'] + after);
    lemma_lines_first(line, after);
    let i = lines(before).len() as int;
    assert(lines(existing)[i] == strip_cr(line));
    // the carriage return that `lines` may drop is part of the trailing white space
    let ws2s = if ws2.len() > 0 && ws2.last() == '\r' {
        ws2.drop_last()
    } else {
        ws2
    };
    assert(strip_cr(line) =~= ws1 + r + ws2s) by {
        if ws2.len() == 0 {
            assert(line.last() == r.last());
        } else {
            assert(line.last() == ws2.last());
        }
    }
    assert forall|k: int| 0 <= k < ws2s.len() implies is_white_space(ws2s[k]) && ws2s[k] != '\n' by {
        assert(ws2s[k] == ws2[k]);
    }
    lemma_white_space_plain(ws1);
    lemma_white_space_plain(ws2s);
    lemma_expand_plain_prefix(ws1, r + ws2s, home);
    lemma_expand_spelled_line_then(spelling, ws2s, home);
    let rh = rc_line_with(home);
    assert(ws1 + r + ws2s =~= ws1 + (r + ws2s));
    assert(expand_home(strip_cr(line), home) == ws1 + (rh + ws2s));
    lemma_trim_start_white_prefix(ws1, rh + ws2s);
    assert((rh + ws2s)[0] == rh[0]);
    assert(rh[0] == '[');
    assert(!is_white_space('['));
    assert(trim_start(rh + ws2s) == rh + ws2s);
    lemma_trim_end_white_suffix(rh, ws2s);
    assert(trim_end(rh) == rh) by {
        assert(!is_white_space('t'));
    }
    assert(trim(expand_home(lines(existing)[i], home)) == expand_home(BFLIST_RC_LINE@, home));
    assert(0 <= i < lines(existing).len());
    assert(before + ws1 + r + ws2 + seq!['\n'] + after =~= existing);
}

} // verus!

verus! {

/// Expanding home references brings in no character that neither the text
/// nor the home directory holds.
proof fn lemma_expand_lacks(s: Seq<char>, home: Seq<char>, c: char)
    requires
        !s.contains(c),
        !home.contains(c),
    ensures
        !expand_home(s, home).contains(c),
    decreases s.len(),
{
    if s.len() > 0 {
        let m: int = if occurs_at(s, braced_home_ref(), 0) {
            7
        } else if occurs_at(s, home_ref(), 0) {
            5
        } else {
            1
        };
        let rest = s.skip(m);
        assert(!rest.contains(c)) by {
            if rest.contains(c) {
                let j = choose|j: int| 0 <= j < rest.len() && rest[j] == c;
                assert(s[m + j] == c);
            }
        }
        lemma_expand_lacks(rest, home, c);
        if occurs_at(s, braced_home_ref(), 0) || occurs_at(s, home_ref(), 0) || s[0] == '~' {
            lemma_concat_lacks(home, expand_home(rest, home), c);
        } else {
            assert(!seq![s[0]].contains(c)) by {
                if seq![s[0]].contains(c) {
                    assert(seq![s[0]][0] == s[0]);
                }
            }
            lemma_concat_lacks(seq![s[0]], expand_home(rest, home), c);
        }
    }
}

/// A file without any `[`, with a home directory without `[`, holds no rc
/// line: the check then says it is missing.
pub proof fn law_no_bracket_no_line(existing: Seq<char>, home: Seq<char>)
    requires
        !existing.contains('['),
        !home.contains('['),
    ensures
        !has_rc_line(existing, home),
{
    lemma_expand_rc_line(home);
    lemma_trim_rc_line(home);
    assert(rc_line_with(home)[0] == '[');
    lemma_lines_lack(existing, '[');
    assert forall|i: int| 0 <= i < lines(existing).len() implies trim(
        expand_home(#[trigger] lines(existing)[i], home),
    ) != expand_home(BFLIST_RC_LINE@, home) by {
        lemma_expand_lacks(lines(existing)[i], home, '[');
        lemma_trim_lacks(expand_home(lines(existing)[i], home), '[');
        assert(rc_line_with(home).contains('['));
    }
}

} // verus!

verus! {

/// To a file that is empty or ends its last line, exactly the rc line and a
/// newline are added; otherwise a newline first ends the last line.
pub proof fn law_append_text_shape(existing: Seq<char>)
    ensures
        existing.len() == 0 || existing.last() == '\n' ==> append_text(existing) == BFLIST_RC_LINE@
            + seq!['\n'],
        existing.len() > 0 && existing.last() != '\n' ==> append_text(existing) == seq!['\n']
            + BFLIST_RC_LINE@ + seq!['\n'],
{
    assert(Seq::<char>::empty() + BFLIST_RC_LINE@ =~= BFLIST_RC_LINE@);
}

} // verus!
