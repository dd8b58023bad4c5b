//! Shell profiles: the supported shells, their history and backup locations,
//! and the matching that picks a profile out of a process or variable name.

use vstd::prelude::*;

verus! {

/// The profile of a supported shell: its name, the locations of its history
/// file and backup directory relative to the home directory, and the command
/// that reloads the history into a running session.
pub struct ShellConfig {
    pub name: &'static str,
    pub history_file: &'static str,
    pub backup_dir: &'static str,
    pub reload_cmd: &'static str,
}

impl ShellConfig {
    pub open spec fn is_zsh(self) -> bool {
        &&& self.name@ == "zsh"@
        &&& self.history_file@ == ".zsh_history"@
        &&& self.backup_dir@ == ".zsh_history_backups"@
        &&& self.reload_cmd@ == "fc -R"@
    }

    pub open spec fn is_bash(self) -> bool {
        &&& self.name@ == "bash"@
        &&& self.history_file@ == ".bash_history"@
        &&& self.backup_dir@ == ".bash_history_backups"@
        &&& self.reload_cmd@ == "history -r"@
    }

    pub open spec fn is_fish(self) -> bool {
        &&& self.name@ == "fish"@
        &&& self.history_file@ == ".local/share/fish/fish_history"@
        &&& self.backup_dir@ == ".fish_history_backups"@
        &&& self.reload_cmd@ == "history --merge"@
    }

    /// A well-formed profile is one of the supported shells.
    pub open spec fn wf(self) -> bool {
        self.is_zsh() || self.is_bash() || self.is_fish()
    }

    pub fn zsh() -> (c: ShellConfig)
        ensures
            c.is_zsh(),
    {
        ShellConfig {
            name: "zsh",
            history_file: ".zsh_history",
            backup_dir: ".zsh_history_backups",
            reload_cmd: "fc -R",
        }
    }

    pub fn bash() -> (c: ShellConfig)
        ensures
            c.is_bash(),
    {
        ShellConfig {
            name: "bash",
            history_file: ".bash_history",
            backup_dir: ".bash_history_backups",
            reload_cmd: "history -r",
        }
    }

    pub fn fish() -> (c: ShellConfig)
        ensures
            c.is_fish(),
    {
        ShellConfig {
            name: "fish",
            history_file: ".local/share/fish/fish_history",
            backup_dir: ".fish_history_backups",
            reload_cmd: "history --merge",
        }
    }

    /// The full path of the history file under the given home directory.
    pub fn get_histfile(&self, home: &str) -> (r: String)
        ensures
            r@ == home@ + "/"@ + self.history_file@,
    {
        let mut s = String::from_str(home);
        s.append("/");
        s.append(self.history_file);
        s
    }

    /// The full path of the backup directory under the given home directory.
    pub fn get_backup_dir(&self, home: &str) -> (r: String)
        ensures
            r@ == home@ + "/"@ + self.backup_dir@,
    {
        let mut s = String::from_str(home);
        s.append("/");
        s.append(self.backup_dir);
        s
    }
}

/// The needle occurs in the haystack starting at position `i`.
pub open spec fn matches_at(hay: Seq<char>, needle: Seq<char>, i: int) -> bool {
    &&& 0 <= i
    &&& i + needle.len() <= hay.len()
    &&& hay.subrange(i, i + needle.len()) == needle
}

/// The needle occurs somewhere in the haystack.
pub open spec fn has_substring(hay: Seq<char>, needle: Seq<char>) -> bool {
    exists|i: int| matches_at(hay, needle, i)
}

fn match_at(hay: &str, needle: &str, i: usize) -> (b: bool)
    requires
        i + needle@.len() <= hay@.len(),
        hay@.len() <= usize::MAX,
    ensures
        b == matches_at(hay@, needle@, i as int),
{
    let m = needle.unicode_len();
    let mut k: usize = 0;
    while k < m
        invariant
            m == needle@.len(),
            i + m <= hay@.len(),
            hay@.len() <= usize::MAX,
            k <= m,
            forall|k2: int| 0 <= k2 < k ==> hay@[i + k2] == needle@[k2],
        decreases m - k,
    {
        if hay.get_char(i + k) != needle.get_char(k) {
            proof {
                assert(hay@.subrange(i as int, i as int + m) != needle@) by {
                    if hay@.subrange(i as int, i as int + m) == needle@ {
                        assert(hay@.subrange(i as int, i as int + m)[k as int] == hay@[i + k]);
                    }
                }
            }
            return false;
        }
        k = k + 1;
    }
    proof {
        assert(hay@.subrange(i as int, i as int + m) =~= needle@);
    }
    true
}

/// Whether one string contains another, as a character subsequence at
/// consecutive positions.
pub fn contains_substring(hay: &str, needle: &str) -> (b: bool)
    ensures
        b == has_substring(hay@, needle@),
{
    let n = hay.unicode_len();
    let m = needle.unicode_len();
    if m == 0 {
        proof {
            assert(hay@.subrange(0, 0) =~= needle@);
            assert(matches_at(hay@, needle@, 0));
        }
        return true;
    }
    if m > n {
        proof {
            assert(forall|i: int| !matches_at(hay@, needle@, i));
        }
        return false;
    }
    let mut i: usize = 0;
    while i <= n - m
        invariant
            n == hay@.len(),
            m == needle@.len(),
            0 < m <= n,
            i <= n - m + 1,
            forall|i2: int| 0 <= i2 < i ==> !matches_at(hay@, needle@, i2),
        decreases n - i,
    {
        if match_at(hay, needle, i) {
            return true;
        }
        i = i + 1;
    }
    proof {
        assert(forall|i2: int| matches_at(hay@, needle@, i2) ==> 0 <= i2 && i2 <= n - m);
        assert(!has_substring(hay@, needle@));
    }
    false
}

/// Pick the shell profile for a candidate string (a parent-process name or
/// the value of a shell-identity variable): the first supported shell, in
/// the order zsh, bash, fish, whose name occurs in the candidate.
pub fn detect_shell(candidate: &str) -> (r: Option<ShellConfig>)
    ensures
        match r {
            Some(cfg) => {
                &&& cfg.wf()
                &&& (cfg.is_zsh() <==> has_substring(candidate@, "zsh"@))
                &&& (cfg.is_bash() <==> (!has_substring(candidate@, "zsh"@) && has_substring(
                    candidate@,
                    "bash"@,
                )))
                &&& (cfg.is_fish() <==> (!has_substring(candidate@, "zsh"@) && !has_substring(
                    candidate@,
                    "bash"@,
                ) && has_substring(candidate@, "fish"@)))
            },
            None => {
                &&& !has_substring(candidate@, "zsh"@)
                &&& !has_substring(candidate@, "bash"@)
                &&& !has_substring(candidate@, "fish"@)
            },
        },
{
    proof {
        reveal_strlit("zsh");
        reveal_strlit("bash");
        reveal_strlit("fish");
    }
    proof {
        assert("bash"@[0] == 'b');
        assert("fish"@[0] == 'f');
    }
    if contains_substring(candidate, "zsh") {
        Some(ShellConfig::zsh())
    } else if contains_substring(candidate, "bash") {
        let c = ShellConfig::bash();
        proof {
            assert(!c.is_fish());
        }
        Some(c)
    } else if contains_substring(candidate, "fish") {
        let c = ShellConfig::fish();
        proof {
            assert(!c.is_bash());
        }
        Some(c)
    } else {
        None
    }
}

} // verus!
