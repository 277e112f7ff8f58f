use vstd::prelude::*;
use vstd::slice::slice_subrange;
use vstd::string::*;
use crate::text::{
    chars_of, find, find_char_exec, find_exec, lemma_find_bounds, lemma_find_first, lemma_find_is,
    lemma_occurs_char, occurs_at, string_of,
};

verus! {

/// The key under which the configuration lists the extensions.
pub const EXTENSIONS_KEY: &'static str = "\"extensions\"";

/// The configuration that `init` writes.
pub const DEFAULT_CONFIG: &'static str = "{\n  \"extensions\": [\"\", \".sh\"]\n}\n";

/// `"extensions"`, quotes included.
pub open spec fn extensions_key() -> Seq<char> {
    seq!['"', 'e', 'x', 't', 'e', 'n', 's', 'i', 'o', 'n', 's', '"']
}

/// The extensions used when the configuration names none: no extension, and `.sh`.
pub open spec fn default_extensions() -> Seq<Seq<char>> {
    seq![Seq::empty(), seq!['.', 's', 'h']]
}

/// The strings between double quotes in `cs`, in order. An opening quote
/// without a closing one takes the rest of `cs`.
pub open spec fn quoted_strings(cs: Seq<char>) -> Seq<Seq<char>>
    decreases cs.len(),
{
    if cs.len() == 0 {
        Seq::empty()
    } else if cs[0] == '"' {
        let body = cs.skip(1);
        match find(body, seq!['"']) {
            Some(k) => {
                proof {
                    lemma_find_bounds(body, seq!['"']);
                }
                seq![body.take(k)] + quoted_strings(body.skip(k + 1))
            },
            None => seq![body],
        }
    } else {
        quoted_strings(cs.skip(1))
    }
}

/// What lies between the first `[` after the key `"extensions"` and the
/// first `]` after that bracket; `None` where one of the three is missing.
pub open spec fn extensions_array(json: Seq<char>) -> Option<Seq<char>> {
    match find(json, extensions_key()) {
        None => None,
        Some(i) => {
            let after_key = json.skip(i + extensions_key().len());
            match find(after_key, seq!['[']) {
                None => None,
                Some(b) => {
                    let after_bracket = after_key.skip(b + 1);
                    match find(after_bracket, seq![']']) {
                        None => None,
                        Some(e) => Some(after_bracket.take(e)),
                    }
                },
            }
        },
    }
}

/// The extensions a configuration text names: the quoted strings of its
/// `"extensions"` array, or the defaults where there is no such array or it
/// holds no quoted string.
pub open spec fn configured_extensions(json: Seq<char>) -> Seq<Seq<char>> {
    match extensions_array(json) {
        None => default_extensions(),
        Some(contents) => {
            let found = quoted_strings(contents);
            if found.len() == 0 {
                default_extensions()
            } else {
                found
            }
        },
    }
}

/// The default extension list: `""` and `".sh"`.
pub fn default_extension_list() -> (exts: Vec<String>)
    ensures
        exts.deep_view() == default_extensions(),
{
    let sh = String::from_str(".sh");
    proof {
        reveal_strlit(".sh");
    }
    assert(sh@ =~= seq!['.', 's', 'h']);
    let exts = vec![String::new(), sh];
    assert(exts.deep_view() =~= default_extensions());
    exts
}

/// The quoted strings of `cs`, as `quoted_strings` says.
fn quoted_strings_exec(cs: &[char]) -> (out: Vec<String>)
    ensures
        out.deep_view() == quoted_strings(cs@),
{
    let n = cs.len();
    let mut out: Vec<String> = Vec::new();
    let mut i: usize = 0;
    assert(cs@.skip(0) =~= cs@);
    while i < n
        invariant
            i <= n,
            n == cs@.len(),
            quoted_strings(cs@) == out.deep_view() + quoted_strings(cs@.skip(i as int)),
        decreases n - i,
    {
        let ghost rest = cs@.skip(i as int);
        let ghost before = out.deep_view();
        if cs[i] == '"' {
            let body = slice_subrange(cs, i + 1, n);
            assert(body@ =~= rest.skip(1));
            match find_char_exec(body, '"') {
                Some(k) => {
                    proof {
                        lemma_find_bounds(body@, seq!['"']);
                    }
                    let piece = slice_subrange(body, 0, k);
                    out.push(string_of(piece));
                    assert(body@.skip(k + 1) =~= cs@.skip(i + 1 + k + 1));
                    assert(piece@ =~= body@.take(k as int));
                    assert(out.deep_view() =~= before.push(body@.take(k as int)));
                    assert(before + (seq![body@.take(k as int)] + quoted_strings(body@.skip(k + 1)))
                        =~= before.push(body@.take(k as int)) + quoted_strings(body@.skip(k + 1)));
                    i = i + 1 + k + 1;
                },
                None => {
                    out.push(string_of(body));
                    assert(out.deep_view() =~= before.push(body@));
                    assert(cs@.skip(n as int) =~= Seq::<char>::empty());
                    assert(before + seq![body@] =~= before.push(body@) + quoted_strings(cs@.skip(n as int)));
                    i = n;
                },
            }
        } else {
            assert(rest.skip(1) =~= cs@.skip(i + 1));
            i = i + 1;
        }
    }
    assert(cs@.skip(n as int) =~= Seq::<char>::empty());
    assert(out.deep_view() + Seq::<Seq<char>>::empty() =~= out.deep_view());
    out
}

/// Reads the extension list from the text of the configuration file, of the
/// form `{ "extensions": ["", ".sh"] }`. Falls back to the defaults when the
/// key or the array is missing, or when the array holds no quoted string.
pub fn parse_extensions(json: &str) -> (exts: Vec<String>)
    ensures
        exts.deep_view() == configured_extensions(json@),
{
    let cs = chars_of(json);
    let key = chars_of(EXTENSIONS_KEY);
    proof {
        reveal_strlit("\"extensions\"");
    }
    assert(key@ =~= extensions_key());
    let all = cs.as_slice();
    let key_chars = key.as_slice();
    let found_key = find_exec(all, key_chars);
    let start = match found_key {
        Some(i) => i,
        None => return default_extension_list(),
    };
    proof {
        lemma_find_bounds(all@, key_chars@);
    }
    assert(key_chars@.len() == key_chars.len());
    assert(all@.len() == all.len());
    let after_key = slice_subrange(all, start + key_chars.len(), all.len());
    assert(after_key@ =~= json@.skip(start + extensions_key().len()));
    let bracket = match find_char_exec(after_key, '[') {
        Some(b) => b,
        None => return default_extension_list(),
    };
    proof {
        lemma_find_bounds(after_key@, seq!['[']);
    }
    let after_bracket = slice_subrange(after_key, bracket + 1, after_key.len());
    assert(after_bracket@ =~= after_key@.skip(bracket + 1));
    let close = match find_char_exec(after_bracket, ']') {
        Some(e) => e,
        None => return default_extension_list(),
    };
    proof {
        lemma_find_bounds(after_bracket@, seq![']']);
    }
    let contents = slice_subrange(after_bracket, 0, close);
    assert(contents@ =~= after_bracket@.take(close as int));
    let found = quoted_strings_exec(contents);
    if found.len() == 0 {
        default_extension_list()
    } else {
        found
    }
}

/// The extensions to use, given the text of the configuration file, or
/// `None` where it could not be read (then the defaults).
pub fn load_extensions(config: Option<&str>) -> (exts: Vec<String>)
    ensures
        exts.deep_view() == (match config {
            Some(text) => configured_extensions(text@),
            None => default_extensions(),
        }),
{
    match config {
        Some(text) => parse_extensions(text),
        None => default_extension_list(),
    }
}

} // verus!

verus! {

/// The extension list is never empty: a configuration that names none gives
/// the defaults.
pub proof fn law_extensions_never_empty(json: Seq<char>)
    ensures
        configured_extensions(json).len() > 0,
{
}

} // verus!

verus! {

/// Characters outside quotes do not count: a text without `"` in front of
/// more text adds no string.
pub proof fn law_unquoted_text_ignored(x: Seq<char>, t: Seq<char>)
    requires
        forall|k: int| 0 <= k < x.len() ==> x[k] != '"',
    ensures
        quoted_strings(x + t) == quoted_strings(t),
    decreases x.len(),
{
    if x.len() == 0 {
        assert(x + t =~= t);
    } else {
        assert((x + t)[0] == x[0]);
        assert((x + t).skip(1) =~= x.skip(1) + t);
        law_unquoted_text_ignored(x.skip(1), t);
    }
}

/// A closed quoted string without `"` inside is one item, and what follows
/// it is read on.
pub proof fn law_quoted_string_read(s: Seq<char>, t: Seq<char>)
    requires
        forall|k: int| 0 <= k < s.len() ==> s[k] != '"',
    ensures
        quoted_strings(seq!['"'] + s + seq!['"'] + t) == seq![s] + quoted_strings(t),
{
    let cs = seq!['"'] + s + seq!['"'] + t;
    let body = cs.skip(1);
    assert(body =~= s + seq!['"'] + t);
    assert(cs[0] == '"');
    lemma_occurs_char(body, '"', s.len() as int);
    assert forall|j: int| 0 <= j < s.len() implies !occurs_at(body, seq!['"'], j) by {
        lemma_occurs_char(body, '"', j);
        assert(body[j] == s[j]);
    }
    lemma_find_is(body, seq!['"'], s.len() as int);
    assert(body.take(s.len() as int) =~= s);
    assert(body.skip(s.len() as int + 1) =~= t);
}

/// An opening quote that is never closed takes the rest of the text.
pub proof fn law_unclosed_quote_takes_rest(s: Seq<char>)
    requires
        forall|k: int| 0 <= k < s.len() ==> s[k] != '"',
    ensures
        quoted_strings(seq!['"'] + s) == seq![s],
{
    let cs = seq!['"'] + s;
    let body = cs.skip(1);
    assert(body =~= s);
    assert(cs[0] == '"');
    lemma_find_first(body, seq!['"']);
    if let Some(k) = find(body, seq!['"']) {
        lemma_occurs_char(body, '"', k);
    }
}

} // verus!

verus! {

/// The first position of the one-character pattern `c` in `x + [c] + y`,
/// where `x` holds no `c`, is the length of `x`.
proof fn lemma_find_char_after(x: Seq<char>, c: char, y: Seq<char>)
    requires
        forall|k: int| 0 <= k < x.len() ==> x[k] != c,
    ensures
        find(x + seq![c] + y, seq![c]) == Some(x.len() as int),
{
    let s = x + seq![c] + y;
    lemma_occurs_char(s, c, x.len() as int);
    assert forall|j: int| 0 <= j < x.len() implies !occurs_at(s, seq![c], j) by {
        lemma_occurs_char(s, c, j);
        assert(s[j] == x[j]);
    }
    lemma_find_is(s, seq![c], x.len() as int);
}

/// The array read is what stands between the first `[` after the key and
/// the next `]`, where nothing before the key is quoted.
pub proof fn law_extensions_array_found(
    pre: Seq<char>,
    mid: Seq<char>,
    contents: Seq<char>,
    post: Seq<char>,
)
    requires
        forall|k: int| 0 <= k < pre.len() ==> pre[k] != '"',
        forall|k: int| 0 <= k < mid.len() ==> mid[k] != '[',
        forall|k: int| 0 <= k < contents.len() ==> contents[k] != ']',
    ensures
        extensions_array(
            pre + seq!['"', 'e', 'x', 't', 'e', 'n', 's', 'i', 'o', 'n', 's', '"'] + mid + seq!['[']
                + contents + seq![']'] + post,
        ) == Some(contents),
{
    let key = extensions_key();
    let json = pre + key + mid + seq!['['] + contents + seq![']'] + post;
    let p = pre.len() as int;
    assert(json.subrange(p, p + key.len()) =~= key);
    assert forall|j: int| 0 <= j < p implies !occurs_at(json, key, j) by {
        if occurs_at(json, key, j) {
            assert(json.subrange(j, j + key.len())[0] == json[j]);
            assert(json[j] == pre[j]);
        }
    }
    lemma_find_is(json, key, p);
    let after_key = json.skip(p + key.len());
    assert(after_key =~= mid + seq!['['] + (contents + seq![']'] + post));
    lemma_find_char_after(mid, '[', contents + seq![']'] + post);
    let after_bracket = after_key.skip(mid.len() as int + 1);
    assert(after_bracket =~= contents + seq![']'] + post);
    lemma_find_char_after(contents, ']', post);
    assert(after_bracket.take(contents.len() as int) =~= contents);
}

} // verus!
