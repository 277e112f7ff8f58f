use vstd::prelude::*;
use vstd::string::*;
use crate::text::{chars_of, find, find_exec, lemma_find_first, occurs_at};

verus! {

/// The directory, under the home directory, that holds everything.
pub const BFCLI_DIR: &'static str = ".bfcli";

/// The directory, under `BFCLI_DIR`, that holds the files to source.
pub const SRC_FILES_DIR: &'static str = "src_files";

/// The sourceable script, under `BFCLI_DIR`.
pub const BFLIST_FILE: &'static str = ".bflist";

/// The configuration, under `BFCLI_DIR`.
pub const CONFIG_FILE: &'static str = "config.json";

/// The rc file of zsh.
pub const ZSHRC: &'static str = ".zshrc";

/// The rc file of bash on macOS.
pub const BASH_PROFILE: &'static str = ".bash_profile";

/// The rc file of bash elsewhere.
pub const BASHRC: &'static str = ".bashrc";

/// `base` joined with `name` as a Unix path: an absolute `name` replaces
/// `base`; otherwise a `/` goes between them unless `base` is empty or
/// already ends with one.
pub open spec fn joined(base: Seq<char>, name: Seq<char>) -> Seq<char> {
    if name.len() > 0 && name[0] == '/' {
        name
    } else if base.len() > 0 && base.last() != '/' {
        base + seq!['/'] + name
    } else {
        base + name
    }
}

/// Joins a path and a name, as `Path::join` does on Unix.
pub fn join_path(base: &str, name: &str) -> (path: String)
    ensures
        path@ == joined(base@, name@),
{
    let b = chars_of(base);
    let n = chars_of(name);
    if n.len() > 0 && n[0] == '/' {
        return String::from_str(name);
    }
    let mut path = String::from_str(base);
    if b.len() > 0 && b[b.len() - 1] != '/' {
        path.append("/");
        proof {
            reveal_strlit("/");
        }
    }
    path.append(name);
    assert(path@ =~= joined(base@, name@));
    path
}

/// The directory `~/.bfcli` for the home directory `home`.
pub fn bfcli_dir(home: &str) -> (dir: String)
    ensures
        dir@ == joined(home@, BFCLI_DIR@),
{
    join_path(home, BFCLI_DIR)
}

/// `zsh`.
pub open spec fn zsh() -> Seq<char> {
    seq!['z', 's', 'h']
}

/// The name of the rc file to add the sourcing line to: `.zshrc` where the
/// shell's path mentions zsh, otherwise `.bash_profile` on macOS and
/// `.bashrc` elsewhere.
pub open spec fn rc_file_name(shell: Seq<char>, is_macos: bool) -> Seq<char> {
    if find(shell, zsh()) is Some {
        ZSHRC@
    } else if is_macos {
        BASH_PROFILE@
    } else {
        BASHRC@
    }
}

/// The rc file for the home directory `home` and the login shell `shell`
/// (`$SHELL`, empty where unset).
pub fn detect_rc_file(home: &str, shell: &str, is_macos: bool) -> (path: String)
    ensures
        path@ == joined(home@, rc_file_name(shell@, is_macos)),
{
    let s = chars_of(shell);
    let z: Vec<char> = vec!['z', 's', 'h'];
    assert(z@ =~= zsh());
    let name = if find_exec(s.as_slice(), z.as_slice()).is_some() {
        ZSHRC
    } else if is_macos {
        BASH_PROFILE
    } else {
        BASHRC
    };
    join_path(home, name)
}

} // verus!

verus! {

/// Where the shell's path mentions `zsh` anywhere, the rc file is `.zshrc`,
/// on macOS as elsewhere.
pub proof fn law_zsh_shell_uses_zshrc(shell: Seq<char>, is_macos: bool)
    requires
        exists|j: int| 0 <= j && j + 3 <= shell.len() && #[trigger] shell.subrange(j, j + 3) == seq!['z', 's', 'h'],
    ensures
        rc_file_name(shell, is_macos) == seq!['.', 'z', 's', 'h', 'r', 'c'],
{
    let j = choose|j: int| 0 <= j && j + 3 <= shell.len() && #[trigger] shell.subrange(j, j + 3) == seq!['z', 's', 'h'];
    assert(occurs_at(shell, zsh(), j));
    lemma_find_first(shell, zsh());
    reveal_strlit(".zshrc");
    assert(ZSHRC@ =~= seq!['.', 'z', 's', 'h', 'r', 'c']);
}

/// Where the shell's path does not mention `zsh`, the rc file is
/// `.bash_profile` on macOS and `.bashrc` elsewhere.
pub proof fn law_other_shell_uses_bash_files(shell: Seq<char>, is_macos: bool)
    requires
        forall|j: int|
            0 <= j && j + 3 <= shell.len() ==> #[trigger] shell.subrange(j, j + 3) != seq!['z', 's', 'h'],
    ensures
        rc_file_name(shell, is_macos) == (if is_macos {
            seq!['.', 'b', 'a', 's', 'h', '_', 'p', 'r', 'o', 'f', 'i', 'l', 'e']
        } else {
            seq!['.', 'b', 'a', 's', 'h', 'r', 'c']
        }),
{
    lemma_find_first(shell, zsh());
    if let Some(k) = find(shell, zsh()) {
        assert(occurs_at(shell, zsh(), k));
    }
    reveal_strlit(".bash_profile");
    reveal_strlit(".bashrc");
    assert(BASH_PROFILE@ =~= seq!['.', 'b', 'a', 's', 'h', '_', 'p', 'r', 'o', 'f', 'i', 'l', 'e']);
    assert(BASHRC@ =~= seq!['.', 'b', 'a', 's', 'h', 'r', 'c']);
}

} // verus!

verus! {

/// Joining ends with the name; a name starting with `/` stands alone, and
/// any other name follows the base and exactly one `/` between them (none
/// added where the base is empty or already ends with `/`).
pub proof fn law_join_shape(base: Seq<char>, name: Seq<char>)
    ensures
        joined(base, name).len() >= name.len(),
        joined(base, name).skip(joined(base, name).len() - name.len()) == name,
        name.len() > 0 && name[0] == '/' ==> joined(base, name) == name,
        !(name.len() > 0 && name[0] == '/') ==> {
            &&& joined(base, name).take(base.len() as int) == base
            &&& base.len() > 0 ==> joined(base, name)[joined(base, name).len() - name.len() - 1]
                == '/'
            &&& joined(base, name).len() == base.len() + name.len() + (if base.len() > 0
                && base.last() != '/' {
                1int
            } else {
                0int
            })
        },
{
    let j = joined(base, name);
    assert(j.skip(j.len() - name.len()) =~= name);
    if !(name.len() > 0 && name[0] == '/') {
        assert(j.take(base.len() as int) =~= base);
    }
}

} // verus!
