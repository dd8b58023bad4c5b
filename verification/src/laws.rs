//! Laws of the history cleaner: the entry decomposition partitions the input,
//! the threshold boundary is strict, an input without continuation lines is
//! returned unchanged, cleaning is idempotent, and no line is lost except to
//! a dropped entry.

use vstd::prelude::*;
use crate::history::{
    is_cont, entry_end, entry_dropped, kept_from, removed_from, dropped_line_count,
    lemma_entry_end_bounds, lemma_entry_structure,
};

verus! {

/// Threshold boundary, both sides: a marker-opened entry whose length equals
/// the threshold is dropped (its lines are skipped and one removal is
/// counted), and one whose length is threshold - 1 is kept in full.
pub proof fn lemma_threshold_boundary(lines: Seq<Seq<char>>, threshold: int, i: int)
    requires
        0 <= i < lines.len(),
        is_cont(lines[i]),
    ensures
        entry_end(lines, i) - i == threshold ==> entry_dropped(lines, threshold, i)
            && kept_from(lines, threshold, i) == kept_from(lines, threshold, entry_end(lines, i))
            && removed_from(lines, threshold, i) == 1 + removed_from(
            lines,
            threshold,
            entry_end(lines, i),
        ),
        entry_end(lines, i) - i == threshold - 1 ==> !entry_dropped(lines, threshold, i)
            && kept_from(lines, threshold, i) == lines.subrange(i, entry_end(lines, i))
            + kept_from(lines, threshold, entry_end(lines, i)) && removed_from(
            lines,
            threshold,
            i,
        ) == removed_from(lines, threshold, entry_end(lines, i)),
{
    lemma_entry_end_bounds(lines, i);
}

proof fn lemma_single_line_identity_from(lines: Seq<Seq<char>>, threshold: int, i: int)
    requires
        0 <= i <= lines.len(),
        forall|k: int| i <= k < lines.len() ==> !is_cont(#[trigger] lines[k]),
    ensures
        kept_from(lines, threshold, i) == lines.subrange(i, lines.len() as int),
        removed_from(lines, threshold, i) == 0,
    decreases lines.len() - i,
{
    if i < lines.len() {
        assert(entry_end(lines, i) == i + 1);
        lemma_single_line_identity_from(lines, threshold, i + 1);
        assert(lines.subrange(i, lines.len() as int) =~= lines.subrange(i, i + 1)
            + lines.subrange(i + 1, lines.len() as int));
    } else {
        assert(lines.subrange(i, lines.len() as int) =~= Seq::<Seq<char>>::empty());
    }
}

/// Single-line identity: an input with no continuation lines is returned
/// unchanged, whatever the threshold, and no entry is removed.
pub proof fn lemma_single_line_identity(lines: Seq<Seq<char>>, threshold: int)
    requires
        forall|k: int| 0 <= k < lines.len() ==> !is_cont(#[trigger] lines[k]),
    ensures
        kept_from(lines, threshold, 0) == lines,
        removed_from(lines, threshold, 0) == 0,
{
    lemma_single_line_identity_from(lines, threshold, 0);
    assert(lines.subrange(0, lines.len() as int) =~= lines);
}

proof fn lemma_count_conservation_from(lines: Seq<Seq<char>>, threshold: int, i: int)
    requires
        0 <= i <= lines.len(),
    ensures
        kept_from(lines, threshold, i).len() + dropped_line_count(lines, threshold, i)
            == lines.len() - i,
    decreases lines.len() - i,
{
    if i < lines.len() {
        lemma_entry_end_bounds(lines, i);
        lemma_count_conservation_from(lines, threshold, entry_end(lines, i));
    }
}

/// Count conservation: the kept lines and the lines that belonged to dropped
/// entries together account for every input line.
pub proof fn lemma_count_conservation(lines: Seq<Seq<char>>, threshold: int)
    ensures
        kept_from(lines, threshold, 0).len() + dropped_line_count(lines, threshold, 0)
            == lines.len(),
{
    lemma_count_conservation_from(lines, threshold, 0);
}

/// The spans of the entries of the input, in order: each span is the
/// half-open line range `[start, end)` of one entry.
pub open spec fn entry_spans(lines: Seq<Seq<char>>, i: int) -> Seq<(int, int)>
    decreases lines.len() - i,
{
    if !(0 <= i < lines.len()) {
        Seq::empty()
    } else {
        proof {
            lemma_entry_end_bounds(lines, i);
        }
        seq![(i, entry_end(lines, i))] + entry_spans(lines, entry_end(lines, i))
    }
}

/// The lines of a list of spans, concatenated in order.
pub open spec fn concat_spans(lines: Seq<Seq<char>>, spans: Seq<(int, int)>) -> Seq<Seq<char>>
    decreases spans.len(),
{
    if spans.len() == 0 {
        Seq::empty()
    } else {
        lines.subrange(spans[0].0, spans[0].1) + concat_spans(lines, spans.drop_first())
    }
}

proof fn lemma_entries_partition_from(lines: Seq<Seq<char>>, i: int)
    requires
        0 <= i <= lines.len(),
    ensures
        forall|k: int|
            0 <= k < entry_spans(lines, i).len() ==> (#[trigger] entry_spans(lines, i)[k]).0
                < entry_spans(lines, i)[k].1 <= lines.len(),
        entry_spans(lines, i).len() > 0 ==> entry_spans(lines, i)[0].0 == i,
        forall|k: int|
            0 <= k < entry_spans(lines, i).len() - 1 ==> (#[trigger] entry_spans(lines, i)[k]).1
                == entry_spans(lines, i)[k + 1].0,
        entry_spans(lines, i).len() > 0 ==> entry_spans(lines, i)[entry_spans(
            lines,
            i,
        ).len() - 1].1 == lines.len(),
        entry_spans(lines, i).len() == 0 <==> i == lines.len(),
        concat_spans(lines, entry_spans(lines, i)) == lines.subrange(i, lines.len() as int),
    decreases lines.len() - i,
{
    if i < lines.len() {
        lemma_entry_end_bounds(lines, i);
        let j = entry_end(lines, i);
        lemma_entries_partition_from(lines, j);
        let sp = entry_spans(lines, i);
        let rec = entry_spans(lines, j);
        assert(sp.drop_first() =~= rec);
        assert(concat_spans(lines, sp) == lines.subrange(i, j) + concat_spans(lines, rec));
        assert(lines.subrange(i, lines.len() as int) =~= lines.subrange(i, j) + lines.subrange(
            j,
            lines.len() as int,
        ));
    } else {
        assert(lines.subrange(i, lines.len() as int) =~= Seq::<Seq<char>>::empty());
    }
}

/// Partition invariant: the entry spans are non-empty, contiguous and
/// non-overlapping, the first starts at line 0, the last ends at the end of
/// the input, and concatenating the lines of all spans — kept or dropped —
/// reproduces the input exactly.  So every line belongs to exactly one entry.
pub proof fn lemma_entries_partition(lines: Seq<Seq<char>>)
    ensures
        forall|k: int|
            0 <= k < entry_spans(lines, 0).len() ==> (#[trigger] entry_spans(lines, 0)[k]).0
                < entry_spans(lines, 0)[k].1 <= lines.len(),
        entry_spans(lines, 0).len() > 0 ==> entry_spans(lines, 0)[0].0 == 0,
        forall|k: int|
            0 <= k < entry_spans(lines, 0).len() - 1 ==> (#[trigger] entry_spans(lines, 0)[k]).1
                == entry_spans(lines, 0)[k + 1].0,
        entry_spans(lines, 0).len() > 0 ==> entry_spans(lines, 0)[entry_spans(
            lines,
            0,
        ).len() - 1].1 == lines.len(),
        entry_spans(lines, 0).len() == 0 <==> lines.len() == 0,
        concat_spans(lines, entry_spans(lines, 0)) == lines,
{
    lemma_entries_partition_from(lines, 0);
    assert(lines.subrange(0, lines.len() as int) =~= lines);
}

/// Every entry of the sequence, from position `i` on, survives the policy.
pub open spec fn all_entries_kept(lines: Seq<Seq<char>>, threshold: int, i: int) -> bool
    decreases lines.len() - i,
{
    if !(0 <= i < lines.len()) {
        true
    } else {
        proof {
            lemma_entry_end_bounds(lines, i);
        }
        !entry_dropped(lines, threshold, i) && all_entries_kept(
            lines,
            threshold,
            entry_end(lines, i),
        )
    }
}

proof fn lemma_all_kept_identity(lines: Seq<Seq<char>>, threshold: int, i: int)
    requires
        0 <= i <= lines.len(),
        all_entries_kept(lines, threshold, i),
    ensures
        kept_from(lines, threshold, i) == lines.subrange(i, lines.len() as int),
        removed_from(lines, threshold, i) == 0,
    decreases lines.len() - i,
{
    if i < lines.len() {
        lemma_entry_end_bounds(lines, i);
        let j = entry_end(lines, i);
        lemma_all_kept_identity(lines, threshold, j);
        assert(lines.subrange(i, lines.len() as int) =~= lines.subrange(i, j) + lines.subrange(
            j,
            lines.len() as int,
        ));
    } else {
        assert(lines.subrange(i, lines.len() as int) =~= Seq::<Seq<char>>::empty());
    }
}

proof fn lemma_entry_end_shift(a: Seq<Seq<char>>, b: Seq<Seq<char>>, m: int)
    requires
        0 <= m <= b.len(),
    ensures
        entry_end(a + b, a.len() + m) == a.len() + entry_end(b, m),
    decreases b.len() - m,
{
    if m < b.len() {
        assert((a + b)[a.len() + m] == b[m]);
        if is_cont(b[m]) {
            lemma_entry_end_shift(a, b, m + 1);
        }
    }
}

proof fn lemma_all_kept_shift(a: Seq<Seq<char>>, b: Seq<Seq<char>>, threshold: int, m: int)
    requires
        0 <= m <= b.len(),
        all_entries_kept(b, threshold, m),
    ensures
        all_entries_kept(a + b, threshold, a.len() + m),
    decreases b.len() - m,
{
    if m < b.len() {
        lemma_entry_end_bounds(b, m);
        lemma_entry_end_shift(a, b, m);
        assert((a + b)[a.len() + m] == b[m]);
        lemma_all_kept_shift(a, b, threshold, entry_end(b, m));
    }
}

proof fn lemma_entry_end_of_closed_prefix(e: Seq<Seq<char>>, rest: Seq<Seq<char>>, m: int)
    requires
        0 <= m < e.len(),
        forall|k: int| 0 <= k < e.len() - 1 ==> is_cont(#[trigger] e[k]),
        !is_cont(e[e.len() - 1]),
    ensures
        entry_end(e + rest, m) == e.len(),
    decreases e.len() - m,
{
    assert((e + rest)[m] == e[m]);
    if m < e.len() - 1 {
        lemma_entry_end_of_closed_prefix(e, rest, m + 1);
    }
}

proof fn lemma_entry_end_all_cont(e: Seq<Seq<char>>, m: int)
    requires
        0 <= m <= e.len(),
        forall|k: int| m <= k < e.len() ==> is_cont(#[trigger] e[k]),
    ensures
        entry_end(e, m) == e.len(),
    decreases e.len() - m,
{
    if m < e.len() {
        lemma_entry_end_all_cont(e, m + 1);
    }
}

/// The output of a cleaning run contains no entry that the policy would drop:
/// the entries of the output are exactly the kept entries of the input, with
/// their boundaries intact.
proof fn lemma_output_all_kept(lines: Seq<Seq<char>>, threshold: int, i: int)
    requires
        0 <= i <= lines.len(),
    ensures
        all_entries_kept(kept_from(lines, threshold, i), threshold, 0),
    decreases lines.len() - i,
{
    if i < lines.len() {
        lemma_entry_end_bounds(lines, i);
        lemma_entry_structure(lines, i);
        let j = entry_end(lines, i);
        lemma_output_all_kept(lines, threshold, j);
        if !entry_dropped(lines, threshold, i) {
            let e = lines.subrange(i, j);
            let rest = kept_from(lines, threshold, j);
            assert(kept_from(lines, threshold, i) == e + rest);
            assert(forall|k: int| 0 <= k < e.len() - 1 ==> is_cont(#[trigger] e[k]));
            if !is_cont(lines[j - 1]) {
                assert(e[e.len() - 1] == lines[j - 1]);
                lemma_entry_end_of_closed_prefix(e, rest, 0);
                lemma_all_kept_shift(e, rest, threshold, 0);
                assert(all_entries_kept(e + rest, threshold, e.len() as int));
                assert(entry_end(e + rest, 0) == e.len());
                assert(!entry_dropped(e + rest, threshold, 0)) by {
                    if is_cont((e + rest)[0]) {
                        assert((e + rest)[0] == lines[i]);
                        assert(j - i < threshold);
                    }
                }
            } else {
                assert(j == lines.len());
                assert(rest =~= Seq::<Seq<char>>::empty());
                assert(e + rest =~= e);
                assert(forall|k: int| 0 <= k < e.len() ==> is_cont(#[trigger] e[k]));
                lemma_entry_end_all_cont(e, 0);
                assert(!entry_dropped(e, threshold, 0)) by {
                    if is_cont(e[0]) {
                        assert(j - i < threshold);
                    }
                }
                assert(all_entries_kept(e, threshold, e.len() as int));
            }
        }
    }
}

/// Idempotence: cleaning an already-cleaned line sequence with the same
/// threshold returns it unchanged and removes nothing.
pub proof fn lemma_clean_idempotent(lines: Seq<Seq<char>>, threshold: int)
    ensures
        kept_from(kept_from(lines, threshold, 0), threshold, 0) == kept_from(lines, threshold, 0),
        removed_from(kept_from(lines, threshold, 0), threshold, 0) == 0,
{
    let out = kept_from(lines, threshold, 0);
    lemma_output_all_kept(lines, threshold, 0);
    lemma_all_kept_identity(out, threshold, 0);
    assert(out.subrange(0, out.len() as int) =~= out);
}

} // verus!
