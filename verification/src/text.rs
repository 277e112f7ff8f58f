use vstd::prelude::*;
use vstd::slice::{slice_subrange, slice_to_vec};

verus! {

/// Calls `String::push`, trusted to do what std documents: append `c` at the
/// end of `s`, leaving what was there unchanged.
#[verifier::external_body]
pub(crate) fn push_char(s: &mut String, c: char)
    ensures
        final(s)@ == old(s)@.push(c),
{
    s.push(c);
}

/// The characters of `s`, in order, as a vector.
pub fn chars_of(s: &str) -> (v: Vec<char>)
    ensures
        v@ == s@,
{
    let mut v: Vec<char> = Vec::new();
    for c in it: s.chars()
        invariant
            v@ == it.seq().take(it.index() as int),
            it.seq() == s@,
    {
        v.push(c);
    }
    v
}

/// A string made of the characters of `cs`, in order.
pub fn string_of(cs: &[char]) -> (s: String)
    ensures
        s@ == cs@,
{
    let mut s = String::new();
    let n = cs.len();
    for i in 0..n
        invariant
            n == cs@.len(),
            s@ == cs@.take(i as int),
    {
        push_char(&mut s, cs[i]);
        assert(cs@.take(i + 1) =~= cs@.take(i as int).push(cs@[i as int]));
    }
    assert(cs@.take(n as int) =~= cs@);
    s
}

} // verus!

verus! {

/// `p` occurs in `s` starting at index `i`.
pub open spec fn occurs_at(s: Seq<char>, p: Seq<char>, i: int) -> bool {
    &&& 0 <= i
    &&& i + p.len() <= s.len()
    &&& s.subrange(i, i + p.len()) == p
}

/// Index of the first occurrence of `p` in `s` (as `str::find` does, counted in characters).
pub open spec fn find(s: Seq<char>, p: Seq<char>) -> Option<int>
    decreases s.len(),
{
    if occurs_at(s, p, 0) {
        Some(0)
    } else if s.len() == 0 {
        None
    } else {
        match find(s.skip(1), p) {
            Some(k) => Some(k + 1),
            None => None,
        }
    }
}

/// Nothing is found in a sequence shorter than the pattern.
pub proof fn lemma_find_short(s: Seq<char>, p: Seq<char>)
    requires
        s.len() < p.len(),
    ensures
        find(s, p) is None,
    decreases s.len(),
{
    if s.len() > 0 {
        lemma_find_short(s.skip(1), p);
    }
}

/// `find` is the first occurrence: it occurs there, and nowhere before.
pub proof fn lemma_find_first(s: Seq<char>, p: Seq<char>)
    ensures
        find(s, p) matches Some(k) ==> occurs_at(s, p, k) && forall|j: int|
            0 <= j < k ==> !occurs_at(s, p, j),
        find(s, p) is None ==> forall|j: int| !occurs_at(s, p, j),
    decreases s.len(),
{
    if occurs_at(s, p, 0) {
    } else if s.len() == 0 {
        assert forall|j: int| !occurs_at(s, p, j) by {
            if occurs_at(s, p, j) {
                assert(j == 0 && p.len() == 0);
                assert(s.subrange(0, 0) =~= p);
            }
        }
    } else {
        lemma_find_first(s.skip(1), p);
        assert forall|j: int| 1 <= j implies occurs_at(s, p, j) == occurs_at(s.skip(1), p, j - 1) by {
            if 0 <= j - 1 && j - 1 + p.len() <= s.len() - 1 {
                assert(s.subrange(j, j + p.len()) =~= s.skip(1).subrange(j - 1, j - 1 + p.len()));
            }
        }
        assert forall|j: int| j < 0 implies !occurs_at(s, p, j) by {}
    }
}

/// Whether `p` occurs at index `i` of `s`.
pub fn occurs_at_exec(s: &[char], p: &[char], i: usize) -> (b: bool)
    ensures
        b == occurs_at(s@, p@, i as int),
{
    if i > s.len() || p.len() > s.len() - i {
        return false;
    }
    let n = p.len();
    for j in 0..n
        invariant
            n == p@.len(),
            i + n <= s.len(),
            j <= n,
            forall|k: int| 0 <= k < j ==> s@[i + k] == p@[k],
    {
        if s[i + j] != p[j] {
            assert(s@.subrange(i as int, i + n)[j as int] != p@[j as int]);
            return false;
        }
    }
    assert(s@.subrange(i as int, i + n) =~= p@);
    true
}

/// `str::find` on character sequences: the index of the first occurrence of `p` in `s`.
pub fn find_exec(s: &[char], p: &[char]) -> (r: Option<usize>)
    ensures
        match r {
            Some(k) => find(s@, p@) == Some(k as int),
            None => find(s@, p@) is None,
        },
{
    let mut i: usize = 0;
    assert(s@.skip(0) =~= s@);
    while i <= s.len() && p.len() <= s.len() - i
        invariant
            i <= s@.len(),
            find(s@, p@) == (match find(s@.skip(i as int), p@) {
                Some(k) => Some(k + i),
                None => None,
            }),
        decreases s@.len() - i,
    {
        let ghost t = s@.skip(i as int);
        if occurs_at_exec(s, p, i) {
            assert(t.subrange(0, p@.len() as int) =~= s@.subrange(i as int, i + p@.len()));
            return Some(i);
        }
        assert(!occurs_at(t, p@, 0)) by {
            if p@.len() <= t.len() {
                assert(t.subrange(0, p@.len() as int) =~= s@.subrange(i as int, i + p@.len()));
            }
        }
        assert(i < s@.len()) by {
            if p@.len() == 0 {
                assert(s@.subrange(i as int, i as int) =~= p@);
            }
        }
        assert(t.skip(1) =~= s@.skip(i + 1));
        i = i + 1;
    }
    if i <= s.len() {
        proof { lemma_find_short(s@.skip(i as int), p@); }
    } else {
        assert(false);
    }
    None
}

} // verus!

verus! {

/// Index of the first `c` in `s` (as `str::find` with a `char` pattern).
pub fn find_char_exec(s: &[char], c: char) -> (r: Option<usize>)
    ensures
        match r {
            Some(k) => find(s@, seq![c]) == Some(k as int),
            None => find(s@, seq![c]) is None,
        },
{
    let p: Vec<char> = vec![c];
    assert(p@ =~= seq![c]);
    find_exec(s, p.as_slice())
}

/// A found index lies inside the sequence, with room for the pattern.
pub proof fn lemma_find_bounds(s: Seq<char>, p: Seq<char>)
    ensures
        find(s, p) matches Some(k) ==> 0 <= k && k + p.len() <= s.len(),
{
    lemma_find_first(s, p);
}

} // verus!

verus! {

/// Appends the characters of `r` to `out`.
pub fn extend_chars(out: &mut Vec<char>, r: &[char])
    ensures
        final(out)@ == old(out)@ + r@,
{
    let n = r.len();
    for j in 0..n
        invariant
            n == r@.len(),
            out@ == old(out)@ + r@.take(j as int),
    {
        out.push(r[j]);
        assert(r@.take(j + 1) =~= r@.take(j as int).push(r@[j as int]));
    }
    assert(r@.take(n as int) =~= r@);
}

/// Whether two character sequences are equal.
pub fn chars_equal(a: &[char], b: &[char]) -> (eq: bool)
    ensures
        eq == (a@ == b@),
{
    if a.len() != b.len() {
        return false;
    }
    let n = a.len();
    for i in 0..n
        invariant
            n == a@.len(),
            n == b@.len(),
            forall|k: int| 0 <= k < i ==> a@[k] == b@[k],
    {
        if a[i] != b[i] {
            return false;
        }
    }
    assert(a@ =~= b@);
    true
}

/// Whether two strings hold the same characters.
pub fn str_equal(a: &str, b: &str) -> (eq: bool)
    ensures
        eq == (a@ == b@),
{
    let x = chars_of(a);
    let y = chars_of(b);
    chars_equal(x.as_slice(), y.as_slice())
}

/// `line` without one trailing carriage return.
pub open spec fn strip_cr(line: Seq<char>) -> Seq<char> {
    if line.len() > 0 && line.last() == '\r' {
        line.drop_last()
    } else {
        line
    }
}

/// The lines of `s`, as `str::lines` gives them: split at each `\n`, a `\r`
/// just before it dropped, and no empty line after a final `\n`.
pub open spec fn lines(s: Seq<char>) -> Seq<Seq<char>>
    decreases s.len(),
{
    if s.len() == 0 {
        Seq::empty()
    } else {
        match find(s, seq!['\n']) {
            Some(k) => {
                proof {
                    lemma_find_bounds(s, seq!['\n']);
                }
                seq![strip_cr(s.take(k))] + lines(s.skip(k + 1))
            },
            None => seq![s],
        }
    }
}

/// The lines of `s`, as `lines` says.
pub fn lines_exec(s: &[char]) -> (out: Vec<Vec<char>>)
    ensures
        out.deep_view() == lines(s@),
{
    let n = s.len();
    let mut out: Vec<Vec<char>> = Vec::new();
    let mut i: usize = 0;
    assert(s@.skip(0) =~= s@);
    while i < n
        invariant
            i <= n,
            n == s@.len(),
            lines(s@) == out.deep_view() + lines(s@.skip(i as int)),
        decreases n - i,
    {
        let rest = slice_subrange(s, i, n);
        let ghost before = out.deep_view();
        assert(rest@ =~= s@.skip(i as int));
        match find_char_exec(rest, '\n') {
            Some(k) => {
                proof {
                    lemma_find_bounds(rest@, seq!['\n']);
                }
                let mut line = slice_to_vec(slice_subrange(rest, 0, k));
                if k > 0 && line[k - 1] == '\r' {
                    line.pop();
                }
                assert(line@ =~= strip_cr(rest@.take(k as int)));
                assert(line.deep_view() =~= line@);
                out.push(line);
                assert(out.deep_view() =~= before.push(strip_cr(rest@.take(k as int))));
                assert(rest@.skip(k + 1) =~= s@.skip(i + k + 1));
                assert(before + (seq![strip_cr(rest@.take(k as int))] + lines(rest@.skip(k + 1)))
                    =~= out.deep_view() + lines(s@.skip(i + k + 1)));
                i = i + k + 1;
            },
            None => {
                let line = slice_to_vec(rest);
                assert(line.deep_view() =~= rest@);
                out.push(line);
                assert(out.deep_view() =~= before.push(rest@));
                assert(s@.skip(n as int) =~= Seq::<char>::empty());
                assert(before + seq![rest@] =~= out.deep_view() + lines(s@.skip(n as int)));
                i = n;
            },
        }
    }
    assert(s@.skip(n as int) =~= Seq::<char>::empty());
    assert(out.deep_view() + Seq::<Seq<char>>::empty() =~= out.deep_view());
    out
}

/// Unicode `White_Space`, the characters `char::is_whitespace` accepts.
pub open spec fn is_white_space(c: char) -> bool {
    ||| ('\u{9}' <= c && c <= '\u{d}')
    ||| c == ' '
    ||| c == '\u{85}'
    ||| c == '\u{a0}'
    ||| c == '\u{1680}'
    ||| ('\u{2000}' <= c && c <= '\u{200a}')
    ||| c == '\u{2028}'
    ||| c == '\u{2029}'
    ||| c == '\u{202f}'
    ||| c == '\u{205f}'
    ||| c == '\u{3000}'
}

/// `char::is_whitespace`.
pub fn is_white_space_exec(c: char) -> (b: bool)
    ensures
        b == is_white_space(c),
{
    ('\u{9}' <= c && c <= '\u{d}') || c == ' ' || c == '\u{85}' || c == '\u{a0}' || c
        == '\u{1680}' || ('\u{2000}' <= c && c <= '\u{200a}') || c == '\u{2028}' || c
        == '\u{2029}' || c == '\u{202f}' || c == '\u{205f}' || c == '\u{3000}'
}

/// `s` without leading white space.
pub open spec fn trim_start(s: Seq<char>) -> Seq<char>
    decreases s.len(),
{
    if s.len() > 0 && is_white_space(s[0]) {
        trim_start(s.skip(1))
    } else {
        s
    }
}

/// `s` without trailing white space.
pub open spec fn trim_end(s: Seq<char>) -> Seq<char>
    decreases s.len(),
{
    if s.len() > 0 && is_white_space(s.last()) {
        trim_end(s.drop_last())
    } else {
        s
    }
}

/// `s` without leading and trailing white space (`str::trim`).
pub open spec fn trim(s: Seq<char>) -> Seq<char> {
    trim_end(trim_start(s))
}

/// `str::trim` on a character sequence.
pub fn trim_exec(s: &[char]) -> (t: &[char])
    ensures
        t@ == trim(s@),
{
    let n = s.len();
    let mut a: usize = 0;
    assert(s@.skip(0) =~= s@);
    while a < n && is_white_space_exec(s[a])
        invariant
            a <= n,
            n == s@.len(),
            trim_start(s@) == trim_start(s@.skip(a as int)),
        decreases n - a,
    {
        assert(s@.skip(a as int).skip(1) =~= s@.skip(a + 1));
        a = a + 1;
    }
    let ghost front = s@.skip(a as int);
    assert(trim_start(front) == front);
    let mut b: usize = n;
    assert(front.subrange(0, (n - a) as int) =~= front);
    while b > a && is_white_space_exec(s[b - 1])
        invariant
            a <= b <= n,
            n == s@.len(),
            front == s@.skip(a as int),
            trim_end(front) == trim_end(front.subrange(0, (b - a) as int)),
        decreases b,
    {
        assert(front.subrange(0, (b - a) as int).drop_last() =~= front.subrange(0, (b - 1 - a) as int));
        b = b - 1;
    }
    let t = slice_subrange(s, a, b);
    assert(t@ =~= front.subrange(0, (b - a) as int));
    t
}

} // verus!

verus! {

/// A one-character pattern occurs exactly where that character stands.
pub proof fn lemma_occurs_char(s: Seq<char>, c: char, j: int)
    ensures
        occurs_at(s, seq![c], j) == (0 <= j < s.len() && s[j] == c),
{
    if 0 <= j < s.len() {
        if s[j] == c {
            assert(s.subrange(j, j + 1) =~= seq![c]);
        } else {
            assert(s.subrange(j, j + 1)[0] != seq![c][0]);
        }
    }
}

/// `find` gives `k` when `p` occurs at `k` and nowhere before.
pub proof fn lemma_find_is(s: Seq<char>, p: Seq<char>, k: int)
    requires
        occurs_at(s, p, k),
        forall|j: int| 0 <= j < k ==> !occurs_at(s, p, j),
    ensures
        find(s, p) == Some(k),
{
    lemma_find_first(s, p);
}

/// Lines of a text that ends a line, followed by more text.
pub proof fn lemma_lines_append(a: Seq<char>, b: Seq<char>)
    requires
        a.len() == 0 || a.last() == '\n',
    ensures
        lines(a + b) == lines(a) + lines(b),
    decreases a.len(),
{
    if a.len() == 0 {
        assert(a + b =~= b);
        assert(lines(a) + lines(b) =~= lines(b));
    } else {
        let nl = seq!['\n'];
        lemma_occurs_char(a, '\n', a.len() - 1);
        lemma_find_first(a, nl);
        let k = find(a, nl)->0;
        assert(0 <= k < a.len()) by {
            lemma_occurs_char(a, '\n', k);
        }
        let s = a + b;
        assert forall|j: int| 0 <= j <= k implies occurs_at(s, nl, j) == occurs_at(a, nl, j) by {
            lemma_occurs_char(a, '\n', j);
            lemma_occurs_char(s, '\n', j);
        }
        lemma_find_is(s, nl, k);
        assert(s.take(k) =~= a.take(k));
        assert(s.skip(k + 1) =~= a.skip(k + 1) + b);
        lemma_lines_append(a.skip(k + 1), b);
        assert(seq![strip_cr(a.take(k))] + (lines(a.skip(k + 1)) + lines(b)) =~= (seq![
            strip_cr(a.take(k)),
        ] + lines(a.skip(k + 1))) + lines(b));
    }
}

/// A line without a newline in it, ended by one, is the first line.
pub proof fn lemma_lines_first(x: Seq<char>, b: Seq<char>)
    requires
        !x.contains('\n'),
    ensures
        lines(x + seq!['\n'] + b) == seq![strip_cr(x)] + lines(b),
{
    let nl = seq!['\n'];
    let s = x + nl + b;
    lemma_occurs_char(s, '\n', x.len() as int);
    assert forall|j: int| 0 <= j < x.len() implies !occurs_at(s, nl, j) by {
        lemma_occurs_char(s, '\n', j);
        assert(s[j] == x[j]);
    }
    lemma_find_is(s, nl, x.len() as int);
    assert(s.take(x.len() as int) =~= x);
    assert(s.skip(x.len() as int + 1) =~= b);
}

} // verus!

verus! {

/// A sequence lacks a character when both of its parts do.
pub proof fn lemma_concat_lacks(a: Seq<char>, b: Seq<char>, c: char)
    requires
        !a.contains(c),
        !b.contains(c),
    ensures
        !(a + b).contains(c),
{
    if (a + b).contains(c) {
        let i = choose|i: int| 0 <= i < (a + b).len() && (a + b)[i] == c;
        if i < a.len() {
            assert(a[i] == c);
        } else {
            assert(b[i - a.len()] == c);
        }
    }
}

} // verus!

verus! {

/// `a` sorts strictly before `b`, character by character (code-point order,
/// which for UTF-8 text is the byte order strings and OS strings sort by).
pub open spec fn lex_lt(a: Seq<char>, b: Seq<char>) -> bool
    decreases a.len(),
{
    if a.len() == 0 {
        b.len() > 0
    } else if b.len() == 0 {
        false
    } else if a[0] != b[0] {
        a[0] < b[0]
    } else {
        lex_lt(a.skip(1), b.skip(1))
    }
}

/// `lex_lt` is a strict total order.
pub proof fn lemma_lex_order(a: Seq<char>, b: Seq<char>)
    ensures
        !lex_lt(a, a),
        lex_lt(a, b) ==> !lex_lt(b, a),
        a != b ==> lex_lt(a, b) || lex_lt(b, a),
    decreases a.len(),
{
    if a.len() > 0 {
        lemma_lex_order(a.skip(1), a.skip(1));
    }
    if a.len() > 0 && b.len() > 0 {
        lemma_lex_order(a.skip(1), b.skip(1));
        if a[0] == b[0] && a.skip(1) == b.skip(1) {
            assert(a =~= seq![a[0]] + a.skip(1));
            assert(b =~= seq![b[0]] + b.skip(1));
        }
    } else if a.len() > 0 {
    } else if b.len() > 0 {
    } else {
        assert(a =~= b);
    }
}

/// `lex_lt` is transitive.
pub proof fn lemma_lex_transitive(a: Seq<char>, b: Seq<char>, c: Seq<char>)
    requires
        lex_lt(a, b),
        lex_lt(b, c),
    ensures
        lex_lt(a, c),
    decreases a.len(),
{
    if a.len() > 0 && b.len() > 0 && c.len() > 0 {
        if a[0] == b[0] && b[0] == c[0] {
            lemma_lex_transitive(a.skip(1), b.skip(1), c.skip(1));
        }
    }
}

/// Whether `a` sorts strictly before `b`.
pub fn lex_less(a: &[char], b: &[char]) -> (lt: bool)
    ensures
        lt == lex_lt(a@, b@),
{
    let mut i: usize = 0;
    assert(a@.skip(0) =~= a@);
    assert(b@.skip(0) =~= b@);
    while i < a.len() && i < b.len() && a[i] == b[i]
        invariant
            i <= a@.len(),
            i <= b@.len(),
            lex_lt(a@, b@) == lex_lt(a@.skip(i as int), b@.skip(i as int)),
        decreases a@.len() - i,
    {
        assert(a@.skip(i as int).skip(1) =~= a@.skip(i + 1));
        assert(b@.skip(i as int).skip(1) =~= b@.skip(i + 1));
        i = i + 1;
    }
    if i == a.len() {
        i < b.len()
    } else if i == b.len() {
        false
    } else {
        a[i] < b[i]
    }
}

} // verus!

verus! {

/// The white space that `trim` removes is exactly Unicode `White_Space`:
/// tab, line feed, vertical tab, form feed, carriage return, space, next
/// line, no-break space, ogham space mark, the eleven spaces from en quad to
/// hair space, line and paragraph separators, narrow no-break space, medium
/// mathematical space and ideographic space.
pub proof fn law_white_space_class(c: char)
    ensures
        is_white_space(c) <==> (c == '\t' || c == '\n' || c == '\u{b}' || c == '\u{c}' || c == '\r'
            || c == ' ' || c == '\u{85}' || c == '\u{a0}' || c == '\u{1680}' || c == '\u{2000}' || c
            == '\u{2001}' || c == '\u{2002}' || c == '\u{2003}' || c == '\u{2004}' || c == '\u{2005}'
            || c == '\u{2006}' || c == '\u{2007}' || c == '\u{2008}' || c == '\u{2009}' || c
            == '\u{200a}' || c == '\u{2028}' || c == '\u{2029}' || c == '\u{202f}' || c == '\u{205f}'
            || c == '\u{3000}'),
{
}

/// White space in front of a text is dropped by `trim_start`.
pub proof fn lemma_trim_start_white_prefix(ws: Seq<char>, x: Seq<char>)
    requires
        forall|k: int| 0 <= k < ws.len() ==> is_white_space(ws[k]),
    ensures
        trim_start(ws + x) == trim_start(x),
    decreases ws.len(),
{
    if ws.len() > 0 {
        assert((ws + x)[0] == ws[0]);
        assert((ws + x).skip(1) =~= ws.skip(1) + x);
        lemma_trim_start_white_prefix(ws.skip(1), x);
    } else {
        assert(ws + x =~= x);
    }
}

/// White space after a text is dropped by `trim_end`.
pub proof fn lemma_trim_end_white_suffix(x: Seq<char>, ws: Seq<char>)
    requires
        forall|k: int| 0 <= k < ws.len() ==> is_white_space(ws[k]),
    ensures
        trim_end(x + ws) == trim_end(x),
    decreases ws.len(),
{
    if ws.len() > 0 {
        assert((x + ws).last() == ws.last());
        assert((x + ws).drop_last() =~= x + ws.drop_last());
        lemma_trim_end_white_suffix(x, ws.drop_last());
    } else {
        assert(x + ws =~= x);
    }
}

} // verus!

verus! {

/// Character order: where two texts first differ, the smaller character
/// sorts first; a proper prefix sorts before the longer text.
pub proof fn law_lex_order_characterized(a: Seq<char>, b: Seq<char>, k: int)
    requires
        0 <= k <= a.len(),
        k <= b.len(),
        a.take(k) == b.take(k),
    ensures
        k < a.len() && k < b.len() && a[k] < b[k] ==> lex_lt(a, b),
        k == a.len() && k < b.len() ==> lex_lt(a, b),
        k == a.len() && k == b.len() ==> !lex_lt(a, b),
    decreases k,
{
    if k > 0 {
        assert(a[0] == a.take(k)[0]);
        assert(b[0] == b.take(k)[0]);
        assert(a.skip(1).take(k - 1) =~= a.take(k).skip(1));
        assert(b.skip(1).take(k - 1) =~= b.take(k).skip(1));
        law_lex_order_characterized(a.skip(1), b.skip(1), k - 1);
    }
}

/// `trim` drops white space around a text that neither starts nor ends
/// with white space, and nothing else.
pub proof fn law_trim_strips_white_padding(ws1: Seq<char>, s: Seq<char>, ws2: Seq<char>)
    requires
        forall|k: int| 0 <= k < ws1.len() ==> is_white_space(ws1[k]),
        forall|k: int| 0 <= k < ws2.len() ==> is_white_space(ws2[k]),
        s.len() > 0,
        !is_white_space(s[0]),
        !is_white_space(s.last()),
    ensures
        trim(ws1 + s + ws2) == s,
{
    assert(ws1 + s + ws2 =~= ws1 + (s + ws2));
    lemma_trim_start_white_prefix(ws1, s + ws2);
    assert((s + ws2)[0] == s[0]);
    lemma_trim_end_white_suffix(s, ws2);
}

} // verus!

verus! {

/// A character absent from a text is absent from each of its lines.
pub proof fn lemma_lines_lack(s: Seq<char>, c: char)
    requires
        !s.contains(c),
    ensures
        forall|i: int| 0 <= i < lines(s).len() ==> !(#[trigger] lines(s)[i]).contains(c),
    decreases s.len(),
{
    if s.len() > 0 {
        lemma_find_bounds(s, seq!['\n']);
        match find(s, seq!['\n']) {
            Some(k) => {
                let rest = s.skip(k + 1);
                assert(!rest.contains(c)) by {
                    if rest.contains(c) {
                        let j = choose|j: int| 0 <= j < rest.len() && rest[j] == c;
                        assert(s[k + 1 + j] == c);
                    }
                }
                lemma_lines_lack(rest, c);
                let first = strip_cr(s.take(k));
                assert(!first.contains(c)) by {
                    if first.contains(c) {
                        let j = choose|j: int| 0 <= j < first.len() && first[j] == c;
                        assert(s[j] == c);
                    }
                }
                assert forall|i: int| 0 <= i < lines(s).len() implies !(#[trigger] lines(
                    s,
                )[i]).contains(c) by {
                    if i > 0 {
                        assert(lines(s)[i] == lines(rest)[i - 1]);
                    }
                }
            },
            None => {},
        }
    }
}

/// A character absent from a text is absent from the text trimmed.
pub proof fn lemma_trim_lacks(s: Seq<char>, c: char)
    requires
        !s.contains(c),
    ensures
        !trim(s).contains(c),
{
    lemma_trim_start_lacks(s, c);
    lemma_trim_end_lacks(trim_start(s), c);
}

proof fn lemma_trim_start_lacks(s: Seq<char>, c: char)
    requires
        !s.contains(c),
    ensures
        !trim_start(s).contains(c),
    decreases s.len(),
{
    if s.len() > 0 && is_white_space(s[0]) {
        assert(!s.skip(1).contains(c)) by {
            if s.skip(1).contains(c) {
                let j = choose|j: int| 0 <= j < s.skip(1).len() && s.skip(1)[j] == c;
                assert(s[j + 1] == c);
            }
        }
        lemma_trim_start_lacks(s.skip(1), c);
    }
}

proof fn lemma_trim_end_lacks(s: Seq<char>, c: char)
    requires
        !s.contains(c),
    ensures
        !trim_end(s).contains(c),
    decreases s.len(),
{
    if s.len() > 0 && is_white_space(s.last()) {
        assert(!s.drop_last().contains(c)) by {
            if s.drop_last().contains(c) {
                let j = choose|j: int| 0 <= j < s.drop_last().len() && s.drop_last()[j] == c;
                assert(s[j] == c);
            }
        }
        lemma_trim_end_lacks(s.drop_last(), c);
    }
}

} // verus!
