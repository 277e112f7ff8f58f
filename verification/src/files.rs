use vstd::prelude::*;
use vstd::string::*;
use crate::text::{chars_of, lemma_lex_order, lemma_lex_transitive, lex_less, lex_lt, str_equal};

verus! {

/// Index of the last `c` in `s` (as `str::rfind` with a `char` pattern).
pub open spec fn rfind(s: Seq<char>, c: char) -> Option<int>
    decreases s.len(),
{
    if s.len() == 0 {
        None
    } else if s.last() == c {
        Some(s.len() - 1)
    } else {
        rfind(s.drop_last(), c)
    }
}

/// The extension of a file name: `None` for a hidden name (one that starts
/// with `.`), the empty sequence for a name without a dot, and otherwise
/// everything from the last dot on.
pub open spec fn extension_of(name: Seq<char>) -> Option<Seq<char>> {
    if name.len() > 0 && name[0] == '.' {
        None
    } else {
        match rfind(name, '.') {
            Some(p) => Some(name.skip(p)),
            None => Some(Seq::empty()),
        }
    }
}

/// Where `rfind` finds a character, it stands there and nowhere after.
pub proof fn lemma_rfind(s: Seq<char>, c: char)
    ensures
        rfind(s, c) matches Some(p) ==> 0 <= p < s.len() && s[p] == c && forall|j: int|
            p < j < s.len() ==> s[j] != c,
        rfind(s, c) is None ==> !s.contains(c),
    decreases s.len(),
{
    if s.len() > 0 && s.last() != c {
        lemma_rfind(s.drop_last(), c);
        if let Some(p) = rfind(s, c) {
            assert forall|j: int| p < j < s.len() implies s[j] != c by {
                if j < s.len() - 1 {
                    assert(s.drop_last()[j] == s[j]);
                }
            }
        } else {
            assert forall|j: int| 0 <= j < s.len() implies s[j] != c by {
                if j < s.len() - 1 {
                    assert(s.drop_last()[j] == s[j]);
                }
            }
        }
    }
}

/// The extension of a file name: `None` if the file is hidden (its name
/// starts with `.`), `Some("")` if the name has no dot (`foo`), and the part
/// from the last dot otherwise (`foo.sh` gives `.sh`).
pub fn file_extension(name: &str) -> (ext: Option<&str>)
    ensures
        match ext {
            Some(e) => extension_of(name@) == Some(e@),
            None => extension_of(name@) is None,
        },
{
    let cs = chars_of(name);
    let n = cs.len();
    if n > 0 && cs[0] == '.' {
        return None;
    }
    let mut j: usize = n;
    assert(cs@.take(n as int) =~= cs@);
    while j > 0 && cs[j - 1] != '.'
        invariant
            j <= n,
            n == cs@.len(),
            rfind(cs@, '.') == rfind(cs@.take(j as int), '.'),
        decreases j,
    {
        assert(cs@.take(j as int).drop_last() =~= cs@.take(j - 1));
        j = j - 1;
    }
    if j == 0 {
        assert(cs@.take(0) =~= Seq::<char>::empty());
        let e = name.substring_char(0, 0);
        assert(e@ =~= Seq::<char>::empty());
        Some(e)
    } else {
        assert(cs@.take(j as int).last() == cs@[j - 1]);
        Some(name.substring_char(j - 1, n))
    }
}

/// A file extension is a suffix of the name; it is empty exactly when the
/// name has no dot, and otherwise starts with the name's last dot.
pub proof fn law_extension_shape(name: Seq<char>)
    ensures
        extension_of(name) is None <==> (name.len() > 0 && name[0] == '.'),
        extension_of(name) matches Some(e) ==> {
            &&& e.len() <= name.len()
            &&& name.skip(name.len() - e.len()) == e
            &&& (e.len() == 0 <==> !name.contains('.'))
            &&& e.len() > 0 ==> e[0] == '.' && !e.skip(1).contains('.')
        },
{
    lemma_rfind(name, '.');
    if let Some(e) = extension_of(name) {
        match rfind(name, '.') {
            Some(p) => {
                assert(name.skip(name.len() - e.len()) =~= e);
                assert(name.contains('.')) by {
                    assert(name[p] == '.');
                }
                assert forall|i: int| 0 <= i < e.skip(1).len() implies e.skip(1)[i] != '.' by {
                    assert(e.skip(1)[i] == name[p + 1 + i]);
                }
            },
            None => {
                assert(name.skip(name.len() as int) =~= e);
            },
        }
    }
}

} // verus!

verus! {

/// What a directory entry is.
#[derive(PartialEq, Eq, Structural, Debug, Clone, Copy)]
pub enum EntryKind {
    Directory,
    File,
    Other,
}

/// One entry of a directory listing: its name and what it is.
#[derive(Debug)]
pub struct DirEntryInfo {
    pub name: String,
    pub kind: EntryKind,
}

/// What to do with an entry of a directory listing, by its index there.
#[derive(PartialEq, Eq, Structural, Debug, Clone, Copy)]
pub enum Visit {
    /// Collect the files under this directory, in place.
    Descend(usize),
    /// Take this file.
    Include(usize),
}

impl Visit {
    /// The index of the entry this visit is for.
    pub open spec fn entry(self) -> int {
        match self {
            Visit::Descend(i) => i as int,
            Visit::Include(i) => i as int,
        }
    }

    /// The index of the entry this visit is for.
    pub fn index(&self) -> (i: usize)
        ensures
            i == self.entry(),
    {
        match self {
            Visit::Descend(i) => *i,
            Visit::Include(i) => *i,
        }
    }
}

/// A hidden name starts with a dot.
pub open spec fn is_hidden(name: Seq<char>) -> bool {
    name.len() > 0 && name[0] == '.'
}

/// What is done with entry `i`: a directory that is not hidden is descended
/// into; a file whose extension is among `exts` is taken; anything else is
/// skipped.
pub open spec fn visit_for(entries: Seq<DirEntryInfo>, exts: Seq<Seq<char>>, i: int) -> Option<
    Visit,
> {
    let e = entries[i];
    match e.kind {
        EntryKind::Directory => if is_hidden(e.name@) {
            None
        } else {
            Some(Visit::Descend(i as usize))
        },
        EntryKind::File => match extension_of(e.name@) {
            Some(x) => if exts.contains(x) {
                Some(Visit::Include(i as usize))
            } else {
                None
            },
            None => None,
        },
        EntryKind::Other => None,
    }
}

/// Entry `i` comes before entry `j` when sorted by name, ties kept in
/// listing order (a stable sort by name).
pub open spec fn sorts_before(entries: Seq<DirEntryInfo>, i: int, j: int) -> bool {
    ||| lex_lt(entries[i].name@, entries[j].name@)
    ||| (entries[i].name@ == entries[j].name@ && i < j)
}

/// Whether `ext` is one of `exts`.
fn contains_extension(exts: &Vec<String>, ext: &str) -> (found: bool)
    ensures
        found == exts.deep_view().contains(ext@),
{
    let n = exts.len();
    for i in 0..n
        invariant
            n == exts@.len(),
            forall|k: int| 0 <= k < i ==> exts@[k]@ != ext@,
    {
        if str_equal(exts[i].as_str(), ext) {
            assert(exts.deep_view()[i as int] == ext@);
            return true;
        }
    }
    assert forall|k: int| 0 <= k < exts.deep_view().len() implies exts.deep_view()[k] != ext@ by {
        assert(exts.deep_view()[k] == exts@[k]@);
    }
    false
}

fn visit_exec(entries: &Vec<DirEntryInfo>, exts: &Vec<String>, i: usize) -> (v: Option<Visit>)
    requires
        i < entries@.len(),
    ensures
        v == visit_for(entries@, exts.deep_view(), i as int),
{
    let e = &entries[i];
    match e.kind {
        EntryKind::Directory => {
            let cs = chars_of(e.name.as_str());
            if cs.len() > 0 && cs[0] == '.' {
                None
            } else {
                Some(Visit::Descend(i))
            }
        },
        EntryKind::File => match file_extension(e.name.as_str()) {
            Some(x) => if contains_extension(exts, x) {
                Some(Visit::Include(i))
            } else {
                None
            },
            None => None,
        },
        EntryKind::Other => None,
    }
}

/// Decides what to do with the entries of one directory: the result holds a
/// visit for exactly the entries that `visit_for` keeps, each once, sorted by
/// name with ties in listing order.
pub fn plan_directory(entries: &Vec<DirEntryInfo>, extensions: &Vec<String>) -> (plan: Vec<Visit>)
    ensures
        forall|k: int|
            0 <= k < plan@.len() ==> 0 <= (#[trigger] plan@[k]).entry() < entries@.len()
                && visit_for(entries@, extensions.deep_view(), plan@[k].entry()) == Some(plan@[k]),
        forall|i: int|
            0 <= i < entries@.len() && (#[trigger] visit_for(entries@, extensions.deep_view(), i))
                is Some ==> exists|k: int| 0 <= k < plan@.len() && plan@[k].entry() == i,
        forall|k1: int, k2: int|
            0 <= k1 < k2 < plan@.len() ==> sorts_before(
                entries@,
                (#[trigger] plan@[k1]).entry(),
                (#[trigger] plan@[k2]).entry(),
            ),
{
    let n = entries.len();
    let ghost exts = extensions.deep_view();
    let mut names: Vec<Vec<char>> = Vec::new();
    for i in 0..n
        invariant
            n == entries@.len(),
            names@.len() == i,
            forall|k: int| 0 <= k < i ==> (#[trigger] names@[k])@ == entries@[k].name@,
    {
        names.push(chars_of(entries[i].name.as_str()));
    }
    let mut plan: Vec<Visit> = Vec::new();
    for i in 0..n
        invariant
            n == entries@.len(),
            names@.len() == n,
            exts == extensions.deep_view(),
            forall|k: int| 0 <= k < n ==> (#[trigger] names@[k])@ == entries@[k].name@,
            forall|k: int|
                0 <= k < plan@.len() ==> 0 <= (#[trigger] plan@[k]).entry() < i && visit_for(
                    entries@,
                    exts,
                    plan@[k].entry(),
                ) == Some(plan@[k]),
            forall|j: int|
                0 <= j < i && (#[trigger] visit_for(entries@, exts, j)) is Some ==> exists|k: int|
                    0 <= k < plan@.len() && plan@[k].entry() == j,
            forall|k1: int, k2: int|
                0 <= k1 < k2 < plan@.len() ==> sorts_before(
                    entries@,
                    (#[trigger] plan@[k1]).entry(),
                    (#[trigger] plan@[k2]).entry(),
                ),
    {
        match visit_exec(entries, extensions, i) {
            None => {
                assert forall|j: int|
                    0 <= j < i + 1 && (#[trigger] visit_for(entries@, exts, j)) is Some implies exists|k: int|
                    0 <= k < plan@.len() && plan@[k].entry() == j by {
                    assert(j < i);
                }
            },
            Some(v) => {
                let mut pos: usize = 0;
                while pos < plan.len() && !lex_less(
                    names[i].as_slice(),
                    names[plan[pos].index()].as_slice(),
                )
                    invariant
                        0 <= pos <= plan@.len(),
                        n == entries@.len(),
                        i < n,
                        names@.len() == n,
                        forall|k: int| 0 <= k < n ==> (#[trigger] names@[k])@ == entries@[k].name@,
                        forall|k: int|
                            0 <= k < plan@.len() ==> 0 <= (#[trigger] plan@[k]).entry() < i,
                        forall|m: int|
                            0 <= m < pos ==> sorts_before(entries@, (#[trigger] plan@[m]).entry(), i as int),
                    decreases plan@.len() - pos,
                {
                    let ghost e = plan@[pos as int].entry();
                    proof {
                        lemma_lex_order(entries@[i as int].name@, entries@[e].name@);
                    }
                    pos = pos + 1;
                }
                let ghost old_plan = plan@;
                assert forall|m: int| pos <= m < old_plan.len() implies sorts_before(
                    entries@,
                    i as int,
                    (#[trigger] old_plan[m]).entry(),
                ) by {
                    let ep = old_plan[pos as int].entry();
                    let em = old_plan[m].entry();
                    assert(lex_lt(entries@[i as int].name@, entries@[ep].name@));
                    if m > pos {
                        assert(sorts_before(entries@, ep, em));
                        if lex_lt(entries@[ep].name@, entries@[em].name@) {
                            lemma_lex_transitive(
                                entries@[i as int].name@,
                                entries@[ep].name@,
                                entries@[em].name@,
                            );
                        }
                    }
                }
                plan.insert(pos, v);
                assert forall|k1: int, k2: int| 0 <= k1 < k2 < plan@.len() implies sorts_before(
                    entries@,
                    (#[trigger] plan@[k1]).entry(),
                    (#[trigger] plan@[k2]).entry(),
                ) by {
                    if k2 < pos {
                        assert(plan@[k1] == old_plan[k1] && plan@[k2] == old_plan[k2]);
                    } else if k2 == pos {
                        assert(plan@[k1] == old_plan[k1]);
                    } else if k1 < pos {
                        assert(plan@[k1] == old_plan[k1] && plan@[k2] == old_plan[k2 - 1]);
                        let e1 = old_plan[k1].entry();
                        let e2 = old_plan[k2 - 1].entry();
                        assert(sorts_before(entries@, e1, i as int));
                        assert(sorts_before(entries@, i as int, e2));
                        if lex_lt(entries@[e1].name@, entries@[i as int].name@) && lex_lt(
                            entries@[i as int].name@,
                            entries@[e2].name@,
                        ) {
                            lemma_lex_transitive(
                                entries@[e1].name@,
                                entries@[i as int].name@,
                                entries@[e2].name@,
                            );
                        }
                    } else if k1 == pos {
                        assert(plan@[k2] == old_plan[k2 - 1]);
                    } else {
                        assert(plan@[k1] == old_plan[k1 - 1] && plan@[k2] == old_plan[k2 - 1]);
                    }
                }
                assert forall|j: int|
                    0 <= j < i + 1 && (#[trigger] visit_for(entries@, exts, j)) is Some implies exists|k: int|
                    0 <= k < plan@.len() && plan@[k].entry() == j by {
                    if j == i {
                        assert(plan@[pos as int].entry() == j);
                    } else {
                        let k = choose|k: int| 0 <= k < old_plan.len() && old_plan[k].entry() == j;
                        if k < pos {
                            assert(plan@[k] == old_plan[k]);
                        } else {
                            assert(plan@[k + 1] == old_plan[k]);
                        }
                    }
                }
                assert forall|k: int| 0 <= k < plan@.len() implies 0 <= (#[trigger] plan@[k]).entry()
                    < i + 1 && visit_for(entries@, exts, plan@[k].entry()) == Some(plan@[k]) by {
                    if k < pos {
                        assert(plan@[k] == old_plan[k]);
                    } else if k > pos {
                        assert(plan@[k] == old_plan[k - 1]);
                    }
                }
            },
        }
    }
    plan
}

} // verus!

verus! {

/// Hidden entries, files and directories alike, are always skipped.
pub proof fn law_hidden_entries_skipped(entries: Seq<DirEntryInfo>, exts: Seq<Seq<char>>, i: int)
    requires
        0 <= i < entries.len(),
        is_hidden(entries[i].name@),
    ensures
        visit_for(entries, exts, i) is None,
{
}

} // verus!

verus! {

/// A directory whose name does not start with `.` is always descended into,
/// whatever the configured extensions.
pub proof fn law_visible_directories_descended(
    entries: Seq<DirEntryInfo>,
    exts: Seq<Seq<char>>,
    i: int,
)
    requires
        0 <= i < entries.len(),
        entries[i].kind == EntryKind::Directory,
        !(entries[i].name@.len() > 0 && entries[i].name@[0] == '.'),
    ensures
        visit_for(entries, exts, i) == Some(Visit::Descend(i as usize)),
{
}

/// A file whose name holds no dot is taken exactly when the empty extension
/// is configured.
pub proof fn law_dotless_files(entries: Seq<DirEntryInfo>, exts: Seq<Seq<char>>, i: int)
    requires
        0 <= i < entries.len(),
        entries[i].kind == EntryKind::File,
        forall|k: int| 0 <= k < entries[i].name@.len() ==> entries[i].name@[k] != '.',
    ensures
        visit_for(entries, exts, i) == (if exts.contains(Seq::<char>::empty()) {
            Some(Visit::Include(i as usize))
        } else {
            None
        }),
{
    let name = entries[i].name@;
    lemma_rfind(name, '.');
    if name.len() > 0 {
        assert(name[0] != '.');
    }
}

/// A file named `stem` + `ext`, where `stem` is not empty and does not start
/// with a dot, and `ext` is a dot followed by no other dot, is taken exactly
/// when `ext` is configured.
pub proof fn law_files_by_extension(
    entries: Seq<DirEntryInfo>,
    exts: Seq<Seq<char>>,
    i: int,
    stem: Seq<char>,
    ext: Seq<char>,
)
    requires
        0 <= i < entries.len(),
        entries[i].kind == EntryKind::File,
        entries[i].name@ == stem + ext,
        stem.len() > 0,
        stem[0] != '.',
        ext.len() > 0,
        ext[0] == '.',
        forall|k: int| 1 <= k < ext.len() ==> ext[k] != '.',
    ensures
        visit_for(entries, exts, i) == (if exts.contains(ext) {
            Some(Visit::Include(i as usize))
        } else {
            None
        }),
{
    let name = entries[i].name@;
    assert(name[0] == stem[0]);
    lemma_rfind(name, '.');
    let p = stem.len() as int;
    assert(name[p] == '.');
    assert forall|j: int| p < j < name.len() implies name[j] != '.' by {
        assert(name[j] == ext[j - p]);
    }
    match rfind(name, '.') {
        Some(q) => {
            if q < p {
                assert(name[p] != '.');
            } else if q > p {
                assert(name[q] != '.');
            }
            assert(name.skip(p) =~= ext);
        },
        None => {
            assert(name.contains('.')) by {
                assert(name[p] == '.');
            }
        },
    }
}

} // verus!

verus! {

/// Entries that are neither files nor directories (such as symbolic links)
/// are never visited.
pub proof fn law_other_entries_skipped(entries: Seq<DirEntryInfo>, exts: Seq<Seq<char>>, i: int)
    requires
        0 <= i < entries.len(),
        entries[i].kind == EntryKind::Other,
    ensures
        visit_for(entries, exts, i) is None,
{
}

} // verus!
