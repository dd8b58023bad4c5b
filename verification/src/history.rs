//! The history cleaner: reconstructs logical entries from raw history lines
//! and drops multiline entries whose length reaches a threshold.

use vstd::prelude::*;

verus! {

/// The characters that trailing-whitespace trimming removes
/// (the Unicode `White_Space` set, as `str::trim_end` uses it).
pub open spec fn is_space(c: char) -> bool {
    ||| c == ' '
    ||| c == '\t'
    ||| c == '\n'
    ||| c == '\u{0b}'
    ||| c == '\u{0c}'
    ||| c == '\r'
    ||| c == '\u{85}'
    ||| c == '\u{a0}'
    ||| c == '\u{1680}'
    ||| c == '\u{2000}'
    ||| c == '\u{2001}'
    ||| c == '\u{2002}'
    ||| c == '\u{2003}'
    ||| c == '\u{2004}'
    ||| c == '\u{2005}'
    ||| c == '\u{2006}'
    ||| c == '\u{2007}'
    ||| c == '\u{2008}'
    ||| c == '\u{2009}'
    ||| c == '\u{200a}'
    ||| c == '\u{2028}'
    ||| c == '\u{2029}'
    ||| c == '\u{202f}'
    ||| c == '\u{205f}'
    ||| c == '\u{3000}'
}

/// A line with its trailing whitespace removed.
pub open spec fn trimmed_end(s: Seq<char>) -> Seq<char>
    decreases s.len(),
{
    if s.len() == 0 {
        s
    } else if is_space(s.last()) {
        trimmed_end(s.drop_last())
    } else {
        s
    }
}

/// A line is a continuation line when, after trailing-whitespace trimming,
/// it ends with a backslash.
pub open spec fn is_cont(s: Seq<char>) -> bool {
    trimmed_end(s).len() > 0 && trimmed_end(s).last() == '\\'
}

fn is_space_char(c: char) -> (b: bool)
    ensures
        b == is_space(c),
{
    c == ' ' || c == '\t' || c == '\n' || c == '\u{0b}' || c == '\u{0c}' || c == '\r'
        || c == '\u{85}' || c == '\u{a0}' || c == '\u{1680}' || c == '\u{2000}'
        || c == '\u{2001}' || c == '\u{2002}' || c == '\u{2003}' || c == '\u{2004}'
        || c == '\u{2005}' || c == '\u{2006}' || c == '\u{2007}' || c == '\u{2008}'
        || c == '\u{2009}' || c == '\u{200a}' || c == '\u{2028}' || c == '\u{2029}'
        || c == '\u{202f}' || c == '\u{205f}' || c == '\u{3000}'
}

/// Whether a history line continues onto the next line: after trailing
/// whitespace is trimmed, the line ends with a backslash.
pub fn ends_with_continuation(line: &str) -> (b: bool)
    ensures
        b == is_cont(line@),
{
    let mut i: usize = line.unicode_len();
    proof {
        assert(line@.subrange(0, i as int) =~= line@);
    }
    while i > 0
        invariant
            i <= line@.len(),
            trimmed_end(line@) == trimmed_end(line@.subrange(0, i as int)),
        decreases i,
    {
        let c = line.get_char(i - 1);
        if is_space_char(c) {
            proof {
                assert(line@.subrange(0, i as int).drop_last() =~= line@.subrange(
                    0,
                    i as int - 1,
                ));
            }
            i = i - 1;
        } else {
            proof {
                assert(trimmed_end(line@.subrange(0, i as int)) == line@.subrange(0, i as int));
            }
            return c == '\\';
        }
    }
    proof {
        assert(line@.subrange(0, 0) =~= Seq::<char>::empty());
    }
    false
}

/// End of the entry that starts at line `i`: the index one past the first
/// non-continuation line at or after `i`, or the end of the input when every
/// remaining line is a continuation line (a dangling marker at end of input).
pub open spec fn entry_end(lines: Seq<Seq<char>>, i: int) -> int
    decreases lines.len() - i,
{
    if i < 0 || i >= lines.len() {
        i
    } else if !is_cont(lines[i]) {
        i + 1
    } else {
        entry_end(lines, i + 1)
    }
}

pub proof fn lemma_entry_end_bounds(lines: Seq<Seq<char>>, i: int)
    requires
        0 <= i < lines.len(),
    ensures
        i < entry_end(lines, i) <= lines.len(),
    decreases lines.len() - i,
{
    if is_cont(lines[i]) {
        if i + 1 < lines.len() {
            lemma_entry_end_bounds(lines, i + 1);
        } else {
            assert(entry_end(lines, i + 1) == i + 1);
        }
    }
}

/// Shape of the entry `[i, entry_end)`: every line before the last is a
/// continuation line, and the last is not — unless the entry runs to the end
/// of the input, where a dangling continuation line is allowed to close it.
pub proof fn lemma_entry_structure(lines: Seq<Seq<char>>, i: int)
    requires
        0 <= i < lines.len(),
    ensures
        forall|k: int| i <= k < entry_end(lines, i) - 1 ==> is_cont(lines[k]),
        !is_cont(lines[entry_end(lines, i) - 1]) || entry_end(lines, i) == lines.len(),
        is_cont(lines[i]) || entry_end(lines, i) == i + 1,
    decreases lines.len() - i,
{
    lemma_entry_end_bounds(lines, i);
    if is_cont(lines[i]) && i + 1 < lines.len() {
        lemma_entry_structure(lines, i + 1);
    }
}

/// The removal policy: an entry is dropped when it begins with a continuation
/// line and its line count reaches the threshold.  An entry that begins with
/// an ordinary line (always of length 1) is kept whatever the threshold.
pub open spec fn entry_dropped(lines: Seq<Seq<char>>, threshold: int, i: int) -> bool {
    is_cont(lines[i]) && entry_end(lines, i) - i >= threshold
}

/// The lines that cleaning keeps, from position `i` to the end of the input.
pub open spec fn kept_from(lines: Seq<Seq<char>>, threshold: int, i: int) -> Seq<Seq<char>>
    decreases lines.len() - i,
{
    if !(0 <= i < lines.len()) {
        Seq::empty()
    } else {
        proof {
            lemma_entry_end_bounds(lines, i);
        }
        let j = entry_end(lines, i);
        if entry_dropped(lines, threshold, i) {
            kept_from(lines, threshold, j)
        } else {
            lines.subrange(i, j) + kept_from(lines, threshold, j)
        }
    }
}

/// How many entries cleaning drops, from position `i` to the end of the input.
pub open spec fn removed_from(lines: Seq<Seq<char>>, threshold: int, i: int) -> int
    decreases lines.len() - i,
{
    if !(0 <= i < lines.len()) {
        0
    } else {
        proof {
            lemma_entry_end_bounds(lines, i);
        }
        let j = entry_end(lines, i);
        if entry_dropped(lines, threshold, i) {
            1 + removed_from(lines, threshold, j)
        } else {
            removed_from(lines, threshold, j)
        }
    }
}

/// How many lines belong to dropped entries, from position `i` to the end.
pub open spec fn dropped_line_count(lines: Seq<Seq<char>>, threshold: int, i: int) -> int
    decreases lines.len() - i,
{
    if !(0 <= i < lines.len()) {
        0
    } else {
        proof {
            lemma_entry_end_bounds(lines, i);
        }
        let j = entry_end(lines, i);
        if entry_dropped(lines, threshold, i) {
            (j - i) + dropped_line_count(lines, threshold, j)
        } else {
            dropped_line_count(lines, threshold, j)
        }
    }
}

/// The view of a sequence of history lines: each line as its character sequence.
pub open spec fn lines_view(lines: Seq<String>) -> Seq<Seq<char>> {
    lines.map_values(|s: String| s@)
}

/// Filter out multiline entries whose length reaches the threshold.
/// Returns the kept lines, in their original order, and how many entries
/// were removed.
pub fn filter_multiline_entries(lines: &Vec<String>, threshold: usize) -> (r: (Vec<String>, usize))
    ensures
        lines_view(r.0@) == kept_from(lines_view(lines@), threshold as int, 0),
        r.1 == removed_from(lines_view(lines@), threshold as int, 0),
{
    let ghost lv = lines_view(lines@);
    let mut output: Vec<String> = Vec::new();
    let mut i: usize = 0;
    let mut removed_count: usize = 0;
    proof {
        assert(lines_view(output@) =~= Seq::<Seq<char>>::empty());
        assert(kept_from(lv, threshold as int, 0) =~= lines_view(output@) + kept_from(
            lv,
            threshold as int,
            0,
        ));
    }
    while i < lines.len()
        invariant
            lv == lines_view(lines@),
            i <= lines.len(),
            removed_count <= i,
            kept_from(lv, threshold as int, 0) == lines_view(output@) + kept_from(
                lv,
                threshold as int,
                i as int,
            ),
            removed_from(lv, threshold as int, 0) == removed_count + removed_from(
                lv,
                threshold as int,
                i as int,
            ),
        decreases lines.len() - i,
    {
        proof {
            assert(lv[i as int] == lines@[i as int]@);
        }
        if ends_with_continuation(lines[i].as_str()) {
            let mut j: usize = i;
            while j < lines.len() && ends_with_continuation(lines[j].as_str())
                invariant
                    lv == lines_view(lines@),
                    i <= j <= lines.len(),
                    entry_end(lv, i as int) == entry_end(lv, j as int),
                decreases lines.len() - j,
            {
                proof {
                    assert(lv[j as int] == lines@[j as int]@);
                    assert(entry_end(lv, j as int) == entry_end(lv, j as int + 1));
                }
                j = j + 1;
            }
            if j < lines.len() {
                proof {
                    assert(lv[j as int] == lines@[j as int]@);
                    assert(entry_end(lv, j as int) == j as int + 1);
                }
                j = j + 1;
            }
            proof {
                assert(entry_end(lv, i as int) == j as int);
            }
            let total_lines = j - i;
            if total_lines < threshold {
                proof {
                    assert(!entry_dropped(lv, threshold as int, i as int));
                    assert(kept_from(lv, threshold as int, i as int) == lv.subrange(
                        i as int,
                        j as int,
                    ) + kept_from(lv, threshold as int, j as int));
                }
                let ghost view_before = lines_view(output@);
                let mut k: usize = i;
                proof {
                    assert(lv.subrange(i as int, i as int) =~= Seq::<Seq<char>>::empty());
                    assert(lines_view(output@) =~= view_before + lv.subrange(i as int, i as int));
                }
                while k < j
                    invariant
                        lv == lines_view(lines@),
                        i <= k <= j <= lines.len(),
                        lines_view(output@) == view_before + lv.subrange(i as int, k as int),
                    decreases j - k,
                {
                    let ghost out_prev = lines_view(output@);
                    output.push(lines[k].clone());
                    proof {
                        assert(lv[k as int] == lines@[k as int]@);
                        assert(lines_view(output@) =~= out_prev + seq![lv[k as int]]);
                        assert(lv.subrange(i as int, k as int + 1) =~= lv.subrange(
                            i as int,
                            k as int,
                        ) + seq![lv[k as int]]);
                        assert(lines_view(output@) =~= view_before + lv.subrange(
                            i as int,
                            k as int + 1,
                        ));
                    }
                    k = k + 1;
                }
                proof {
                    assert(lines_view(output@) + kept_from(lv, threshold as int, j as int)
                        =~= view_before + kept_from(lv, threshold as int, i as int));
                }
            } else {
                proof {
                    assert(entry_dropped(lv, threshold as int, i as int));
                }
                removed_count = removed_count + 1;
            }
            i = j;
        } else {
            proof {
                assert(entry_end(lv, i as int) == i as int + 1);
                assert(!entry_dropped(lv, threshold as int, i as int));
                assert(kept_from(lv, threshold as int, i as int) == lv.subrange(
                    i as int,
                    i as int + 1,
                ) + kept_from(lv, threshold as int, i as int + 1));
            }
            let ghost view_before = lines_view(output@);
            output.push(lines[i].clone());
            proof {
                assert(lv.subrange(i as int, i as int + 1) =~= seq![lv[i as int]]);
                assert(lines_view(output@) =~= view_before + lv.subrange(i as int, i as int + 1));
                assert(lines_view(output@) + kept_from(lv, threshold as int, i as int + 1)
                    =~= view_before + kept_from(lv, threshold as int, i as int));
            }
            i = i + 1;
        }
    }
    proof {
        assert(kept_from(lv, threshold as int, i as int) =~= Seq::<Seq<char>>::empty());
        assert(lines_view(output@) =~= lines_view(output@) + kept_from(
            lv,
            threshold as int,
            i as int,
        ));
    }
    (output, removed_count)
}

/// The file name under which a backup of a history file is stored: the
/// shell's name, a fixed middle part, and a timestamp.
pub fn backup_file_name(shell_name: &str, timestamp: &str) -> (r: String)
    ensures
        r@ == shell_name@ + "_history."@ + timestamp@,
{
    let mut s = String::from_str(shell_name);
    s.append("_history.");
    s.append(timestamp);
    s
}

/// Statistics about one cleaning run.
#[derive(Debug)]
pub struct CleaningStats {
    pub original_lines: usize,
    pub kept_lines: usize,
    pub removed_entries: usize,
}

/// Clean a history, given as its sequence of lines: drop every multiline
/// entry whose length reaches the threshold, and report the statistics.
pub fn clean_lines(lines: &Vec<String>, threshold: usize) -> (r: (Vec<String>, CleaningStats))
    ensures
        lines_view(r.0@) == kept_from(lines_view(lines@), threshold as int, 0),
        r.1.original_lines == lines@.len(),
        r.1.kept_lines == r.0@.len(),
        r.1.removed_entries == removed_from(lines_view(lines@), threshold as int, 0),
{
    let (output, removed_count) = filter_multiline_entries(lines, threshold);
    let stats = CleaningStats {
        original_lines: lines.len(),
        kept_lines: output.len(),
        removed_entries: removed_count,
    };
    proof {
        assert(lines_view(output@).len() == output@.len());
    }
    (output, stats)
}

} // verus!
