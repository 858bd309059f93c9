//! Turning raw history text into the command list, and resolving which
//! history file a shell keeps.
//!
//! Reading the file and the environment happens outside the library; the
//! logic over the values read lives here.
use vstd::prelude::*;
use crate::search::cmd_views;
use crate::text::str_eq;
use crate::text::trim_str;
use crate::text::trimmed;

verus! {

/// The cleaned history: every line trimmed, empty lines dropped, order
/// kept.
pub open spec fn cleaned(lines: Seq<Seq<char>>) -> Seq<Seq<char>>
    decreases lines.len(),
{
    if lines.len() == 0 {
        Seq::empty()
    } else {
        let rest = cleaned(lines.drop_last());
        if trimmed(lines.last()).len() > 0 {
            rest + seq![trimmed(lines.last())]
        } else {
            rest
        }
    }
}

/// Trims each raw history line and keeps the non-empty ones, in order.
pub fn clean_lines(lines: &Vec<String>) -> (r: Vec<String>)
    ensures
        cmd_views(r@) == cleaned(cmd_views(lines@)),
{
    let mut out: Vec<String> = Vec::new();
    let n = lines.len();
    let mut k: usize = 0;
    proof {
        assert(cmd_views(lines@).take(0) =~= Seq::<Seq<char>>::empty());
        assert(cmd_views(out@) =~= Seq::<Seq<char>>::empty());
    }
    while k < n
        invariant
            k <= n,
            n == lines@.len(),
            cmd_views(out@) == cleaned(cmd_views(lines@).take(k as int)),
        decreases n - k,
    {
        let ghost prefix = cmd_views(lines@).take(k as int);
        let ghost next_prefix = cmd_views(lines@).take(k + 1);
        proof {
            assert(next_prefix.drop_last() =~= prefix);
            assert(next_prefix.last() == lines@[k as int]@);
        }
        let t = trim_str(lines[k].as_str());
        if !t.as_str().is_empty() {
            let ghost old_out = out@;
            out.push(t);
            proof {
                assert(cmd_views(out@) =~= cmd_views(old_out) + seq![trimmed(
                    lines@[k as int]@,
                )]);
            }
        }
        k = k + 1;
    }
    proof {
        assert(cmd_views(lines@).take(n as int) =~= cmd_views(lines@));
    }
    out
}

/// Whether the shell identifier names bash.
pub open spec fn is_bash(s: Seq<char>) -> bool {
    s == "/bin/bash"@ || s == "/usr/bin/bash"@
}

/// Whether the shell identifier names zsh.
pub open spec fn is_zsh(s: Seq<char>) -> bool {
    s == "/bin/zsh"@ || s == "/usr/bin/zsh"@
}

/// Whether the shell identifier names fish.
pub open spec fn is_fish(s: Seq<char>) -> bool {
    s == "/bin/fish"@ || s == "/usr/bin/fish"@
}

/// Where a recognized shell keeps its history, under the home directory;
/// nothing for an unrecognized shell.
pub open spec fn shell_history_path(shell: Seq<char>, home: Seq<char>) -> Option<Seq<char>> {
    if is_bash(shell) {
        Option::Some(home + "/.bash_history"@)
    } else if is_zsh(shell) {
        Option::Some(home + "/.zsh_history"@)
    } else if is_fish(shell) {
        Option::Some(home + "/.local/share/fish/fish_history"@)
    } else {
        Option::None
    }
}

/// Resolves the history file path for a shell identifier, or nothing when
/// the shell is not recognized.
pub fn history_path_for_shell(shell: &str, home: &str) -> (r: Option<String>)
    ensures
        match r {
            Option::Some(p) => shell_history_path(shell@, home@) == Option::Some(p@),
            Option::None => shell_history_path(shell@, home@) is None,
        },
{
    if str_eq(shell, "/bin/bash") || str_eq(shell, "/usr/bin/bash") {
        Some(home.to_owned().concat("/.bash_history"))
    } else if str_eq(shell, "/bin/zsh") || str_eq(shell, "/usr/bin/zsh") {
        Some(home.to_owned().concat("/.zsh_history"))
    } else if str_eq(shell, "/bin/fish") || str_eq(shell, "/usr/bin/fish") {
        Some(home.to_owned().concat("/.local/share/fish/fish_history"))
    } else {
        None
    }
}

} // verus!
