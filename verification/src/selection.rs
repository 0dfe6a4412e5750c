//! An ordered, normalized collection of ranges plus a primary-range index;
//! owns the sort-and-merge normalization algorithm.

use vstd::prelude::*;

use crate::changeset::{spec_insert_sum, Change, ChangeSet};
use crate::range::Range;
use crate::text::TextView;

verus! {

/// Ranges ascending by their low end.
pub open spec fn spec_sorted_by_from(s: Seq<Range>) -> bool {
    forall|i: int, j: int|
        0 <= i < j < s.len() ==> (#[trigger] s[i]).spec_from() <= (#[trigger] s[j]).spec_from()
}

/// No later range overlaps an earlier one (the probe direction that the
/// merge pass of normalization decides by).
pub open spec fn spec_nonoverlapping(s: Seq<Range>) -> bool {
    forall|i: int, j: int|
        0 <= i < j < s.len() ==> !(#[trigger] s[j]).spec_overlaps(#[trigger] s[i])
}

/// Stable insertion of `r` into `s`: `r` lands after every element whose
/// low end does not exceed its own.
pub open spec fn spec_insert_by_from(s: Seq<Range>, r: Range) -> Seq<Range>
    decreases s.len(),
{
    if s.len() == 0 {
        seq![r]
    } else if s.last().spec_from() <= r.spec_from() {
        s.push(r)
    } else {
        spec_insert_by_from(s.drop_last(), r).push(s.last())
    }
}

/// Stable sort of the ranges by their low end.
pub open spec fn spec_sort_by_from(s: Seq<Range>) -> Seq<Range>
    decreases s.len(),
{
    if s.len() == 0 {
        Seq::<Range>::empty()
    } else {
        spec_insert_by_from(spec_sort_by_from(s.drop_last()), s.last())
    }
}

/// Index of the first occurrence of `r` in `s` (length of `s` if absent).
pub open spec fn spec_first_index_of(s: Seq<Range>, r: Range) -> int
    decreases s.len(),
{
    if s.len() == 0 {
        0
    } else if s[0] == r {
        0
    } else {
        1 + spec_first_index_of(s.drop_first(), r)
    }
}

/// The range covering both `prev` and `r`, drawn in the direction of the
/// incoming range `r`.
pub open spec fn spec_merge_two(prev: Range, r: Range) -> Range {
    let f = prev.spec_from();
    let t = if r.spec_to() >= prev.spec_to() {
        r.spec_to()
    } else {
        prev.spec_to()
    };
    if r.anchor > r.head {
        Range { anchor: t, head: f }
    } else {
        Range { anchor: f, head: t }
    }
}

/// The left-to-right merge pass over the first `k` sorted ranges: each
/// range that overlaps the last accepted one is absorbed into it, the rest
/// are appended. The second component tracks where the range at sorted
/// position `p0` (the relocated primary) ended up, index or merge target.
pub open spec fn spec_merge_upto(s: Seq<Range>, p0: int, k: int) -> (Seq<Range>, int)
    decreases k,
{
    if k <= 0 {
        (Seq::<Range>::empty(), 0)
    } else {
        let prev = spec_merge_upto(s, p0, k - 1);
        let acc = prev.0;
        let p = prev.1;
        let r = s[k - 1];
        if acc.len() > 0 && r.spec_overlaps(acc.last()) {
            let acc2 = acc.drop_last().push(spec_merge_two(acc.last(), r));
            (acc2, if k - 1 == p0 {
                acc2.len() - 1
            } else {
                p
            })
        } else {
            let acc2 = acc.push(r);
            (acc2, if k - 1 == p0 {
                acc2.len() - 1
            } else {
                p
            })
        }
    }
}

/// Normalization: sort by low end, relocate the claimed primary to its
/// first sorted occurrence, then run the merge pass.
pub open spec fn spec_normalize(ranges: Seq<Range>, primary_index: int) -> (Seq<Range>, int) {
    let primary = ranges[primary_index];
    let sorted = spec_sort_by_from(ranges);
    let p0 = spec_first_index_of(sorted, primary);
    spec_merge_upto(sorted, p0, sorted.len() as int)
}

/// What the general constructor returns: a single supplied range is taken
/// as-is with the primary forced to the front; anything longer is
/// normalized.
pub open spec fn spec_selection_new(ranges: Seq<Range>, primary_index: int) -> (Seq<Range>, int) {
    if ranges.len() == 1 {
        (ranges, 0)
    } else {
        spec_normalize(ranges, primary_index)
    }
}

proof fn lemma_insert_by_from_len(s: Seq<Range>, r: Range)
    ensures
        spec_insert_by_from(s, r).len() == s.len() + 1,
    decreases s.len(),
{
    if s.len() > 0 && !(s.last().spec_from() <= r.spec_from()) {
        lemma_insert_by_from_len(s.drop_last(), r);
    }
}

proof fn lemma_sort_by_from_len(s: Seq<Range>)
    ensures
        spec_sort_by_from(s).len() == s.len(),
    decreases s.len(),
{
    if s.len() > 0 {
        lemma_sort_by_from_len(s.drop_last());
        lemma_insert_by_from_len(spec_sort_by_from(s.drop_last()), s.last());
    }
}

proof fn lemma_insert_by_from_contains(s: Seq<Range>, r: Range, x: Range)
    ensures
        spec_insert_by_from(s, r).contains(x) <==> (s.contains(x) || x == r),
    decreases s.len(),
{
    if s.len() == 0 {
        assert(spec_insert_by_from(s, r) =~= seq![r]);
        assert(seq![r].contains(x) <==> x == r) by {
            if x == r {
                assert(seq![r][0] == x);
            }
        }
        assert(!s.contains(x));
    } else if s.last().spec_from() <= r.spec_from() {
        lemma_push_contains(s, r, x);
    } else {
        lemma_insert_by_from_contains(s.drop_last(), r, x);
        lemma_push_contains(spec_insert_by_from(s.drop_last(), r), s.last(), x);
        lemma_push_contains(s.drop_last(), s.last(), x);
        assert(s.drop_last().push(s.last()) =~= s);
    }
}

proof fn lemma_push_contains(s: Seq<Range>, r: Range, x: Range)
    ensures
        s.push(r).contains(x) <==> (s.contains(x) || x == r),
{
    if s.contains(x) {
        let i = choose|i: int| 0 <= i < s.len() && s[i] == x;
        assert(s.push(r)[i] == x);
    }
    if x == r {
        assert(s.push(r)[s.len() as int] == x);
    }
    if s.push(r).contains(x) {
        let i = choose|i: int| 0 <= i < s.push(r).len() && s.push(r)[i] == x;
        if i < s.len() {
            assert(s[i] == x);
        }
    }
}

proof fn lemma_sort_by_from_contains(s: Seq<Range>, x: Range)
    ensures
        spec_sort_by_from(s).contains(x) <==> s.contains(x),
    decreases s.len(),
{
    if s.len() == 0 {
        assert(!s.contains(x));
        assert(!spec_sort_by_from(s).contains(x));
    } else {
        lemma_sort_by_from_contains(s.drop_last(), x);
        lemma_insert_by_from_contains(spec_sort_by_from(s.drop_last()), s.last(), x);
        lemma_push_contains(s.drop_last(), s.last(), x);
        assert(s.drop_last().push(s.last()) =~= s);
    }
}

proof fn lemma_insert_by_from_sorted(s: Seq<Range>, r: Range)
    requires
        spec_sorted_by_from(s),
    ensures
        spec_sorted_by_from(spec_insert_by_from(s, r)),
    decreases s.len(),
{
    if s.len() == 0 {
    } else if s.last().spec_from() <= r.spec_from() {
        let out = s.push(r);
        assert forall|i: int, j: int| 0 <= i < j < out.len() implies (#[trigger] out[i]).spec_from()
            <= (#[trigger] out[j]).spec_from() by {
            if j < s.len() {
                assert(s[i].spec_from() <= s[j].spec_from());
            } else {
                if i < s.len() - 1 {
                    assert(s[i].spec_from() <= s[s.len() - 1].spec_from());
                }
            }
        }
    } else {
        lemma_insert_by_from_sorted(s.drop_last(), r);
        let inner = spec_insert_by_from(s.drop_last(), r);
        let out = inner.push(s.last());
        lemma_insert_by_from_contains_bound(s.drop_last(), r);
        assert forall|i: int, j: int| 0 <= i < j < out.len() implies (#[trigger] out[i]).spec_from()
            <= (#[trigger] out[j]).spec_from() by {
            if j < inner.len() {
                assert(inner[i].spec_from() <= inner[j].spec_from());
            } else {
                assert(out[j] == s.last());
                assert(inner.contains(inner[i]));
                lemma_insert_by_from_contains(s.drop_last(), r, inner[i]);
                if inner[i] == r {
                    assert(r.spec_from() <= s.last().spec_from());
                } else {
                    let w = choose|w: int|
                        0 <= w < s.drop_last().len() && s.drop_last()[w] == inner[i];
                    assert(s[w] == inner[i]);
                    assert(s[w].spec_from() <= s.last().spec_from());
                }
            }
        }
    }
}

proof fn lemma_insert_by_from_contains_bound(s: Seq<Range>, r: Range)
    ensures
        forall|i: int|
            0 <= i < spec_insert_by_from(s, r).len() ==> spec_insert_by_from(s, r).contains(
                #[trigger] spec_insert_by_from(s, r)[i],
            ),
{
}

proof fn lemma_sort_by_from_sorted(s: Seq<Range>)
    ensures
        spec_sorted_by_from(spec_sort_by_from(s)),
    decreases s.len(),
{
    if s.len() > 0 {
        lemma_sort_by_from_sorted(s.drop_last());
        lemma_insert_by_from_sorted(spec_sort_by_from(s.drop_last()), s.last());
    }
}

/// Sorting a sequence already ascending by low end leaves it unchanged.
proof fn lemma_sort_of_sorted_identity(s: Seq<Range>)
    requires
        spec_sorted_by_from(s),
    ensures
        spec_sort_by_from(s) == s,
    decreases s.len(),
{
    if s.len() > 0 {
        assert(spec_sorted_by_from(s.drop_last()));
        lemma_sort_of_sorted_identity(s.drop_last());
        if s.len() == 1 {
            assert(spec_insert_by_from(s.drop_last(), s.last()) =~= seq![s.last()]);
            assert(seq![s.last()] =~= s);
        } else {
            assert(s.drop_last().last().spec_from() <= s.last().spec_from()) by {
                assert(s[s.len() - 2].spec_from() <= s[s.len() - 1].spec_from());
            }
            assert(s.drop_last().push(s.last()) =~= s);
        }
    }
}

/// Structural facts about the merge pass, by induction over its length:
/// the accepted prefix stays sorted and non-overlapping, never grows past
/// the number of ranges scanned, and once the relocated primary has been
/// scanned, the tracked index stays in bounds and points at a range
/// covering the primary's span.
proof fn lemma_merge_upto_props(s: Seq<Range>, p0: int, k: int)
    requires
        spec_sorted_by_from(s),
        0 <= p0 < s.len(),
        0 <= k <= s.len(),
    ensures
        spec_merge_upto(s, p0, k).0.len() <= k,
        k > 0 ==> spec_merge_upto(s, p0, k).0.len() >= 1,
        spec_sorted_by_from(spec_merge_upto(s, p0, k).0),
        spec_nonoverlapping(spec_merge_upto(s, p0, k).0),
        k > 0 ==> spec_merge_upto(s, p0, k).0.last().spec_from() <= s[k - 1].spec_from(),
        k <= p0 ==> spec_merge_upto(s, p0, k).1 == 0,
        k > p0 ==> 0 <= spec_merge_upto(s, p0, k).1 < spec_merge_upto(s, p0, k).0.len(),
        k > p0 ==> spec_merge_upto(s, p0, k).0[spec_merge_upto(s, p0, k).1].spec_from() <= s[
            p0].spec_from(),
        k > p0 ==> s[p0].spec_to() <= spec_merge_upto(s, p0, k).0[spec_merge_upto(
            s,
            p0,
            k,
        ).1].spec_to(),
    decreases k,
{
    if k > 0 {
        lemma_merge_upto_props(s, p0, k - 1);
        let prev = spec_merge_upto(s, p0, k - 1);
        let acc = prev.0;
        let p = prev.1;
        let r = s[k - 1];
        let cur = spec_merge_upto(s, p0, k);
        if acc.len() > 0 && r.spec_overlaps(acc.last()) {
            let last = acc.last();
            let merged = spec_merge_two(last, r);
            let acc2 = acc.drop_last().push(merged);
            assert(merged.spec_from() == last.spec_from());
            assert(merged.spec_to() >= last.spec_to());
            assert(merged.spec_to() >= r.spec_to());
            assert(merged.spec_is_empty() ==> last.spec_is_empty());
            assert(cur.0 == acc2);
            assert(acc2.len() == acc.len());
            assert forall|i: int, j: int| 0 <= i < j < acc2.len() implies (
            #[trigger] acc2[i]).spec_from() <= (#[trigger] acc2[j]).spec_from() by {
                assert(acc[i].spec_from() <= acc[j].spec_from());
                if j == acc2.len() - 1 {
                    assert(acc2[j] == merged);
                }
            }
            assert forall|i: int, j: int| 0 <= i < j < acc2.len() implies !(
            #[trigger] acc2[j]).spec_overlaps(#[trigger] acc2[i]) by {
                if j < acc2.len() - 1 {
                    assert(!acc[j].spec_overlaps(acc[i]));
                } else {
                    assert(acc2[j] == merged);
                    assert(acc2[i] == acc[i]);
                    assert(!last.spec_overlaps(acc[i]));
                }
            }
            assert(k - 1 >= 1);
            assert(acc.last().spec_from() <= s[k - 2].spec_from());
            assert(s[k - 2].spec_from() <= s[k - 1].spec_from());
            if k - 1 == p0 {
                assert(cur.1 == acc2.len() - 1);
                assert(acc2.last() == merged);
                assert(merged.spec_from() <= r.spec_from());
            } else if k - 1 > p0 {
                assert(cur.1 == p);
                if p < acc.len() - 1 {
                    assert(acc2[p] == acc[p]);
                } else {
                    assert(acc2[p] == merged);
                    assert(merged.spec_from() <= acc[p].spec_from());
                    assert(merged.spec_to() >= acc[p].spec_to());
                }
            }
        } else {
            let acc2 = acc.push(r);
            assert(cur.0 == acc2);
            if acc.len() > 0 {
                assert(acc.last().spec_from() <= s[k - 2].spec_from());
                assert(s[k - 2].spec_from() <= s[k - 1].spec_from());
                assert(!r.spec_overlaps(acc.last()));
            }
            assert forall|i: int, j: int| 0 <= i < j < acc2.len() implies (
            #[trigger] acc2[i]).spec_from() <= (#[trigger] acc2[j]).spec_from() by {
                if j < acc2.len() - 1 {
                    assert(acc[i].spec_from() <= acc[j].spec_from());
                } else {
                    assert(acc2[j] == r);
                    if i < acc.len() - 1 {
                        assert(acc[i].spec_from() <= acc.last().spec_from());
                    }
                }
            }
            assert forall|i: int, j: int| 0 <= i < j < acc2.len() implies !(
            #[trigger] acc2[j]).spec_overlaps(#[trigger] acc2[i]) by {
                if j < acc2.len() - 1 {
                    assert(!acc[j].spec_overlaps(acc[i]));
                } else {
                    assert(acc2[j] == r);
                    assert(acc2[i] == acc[i]);
                    if i < acc.len() - 1 {
                        assert(!acc.last().spec_overlaps(acc[i]));
                        assert(acc[i].spec_to() <= acc.last().spec_from());
                    }
                    assert(acc[i].spec_to() <= acc.last().spec_to());
                }
            }
            if k - 1 > p0 {
                assert(cur.1 == p);
                assert(acc2[p] == acc[p]);
            }
        }
    }
}

/// Properties of the first-occurrence search when the element is present.
proof fn lemma_first_index_of(s: Seq<Range>, r: Range)
    requires
        s.contains(r),
    ensures
        0 <= spec_first_index_of(s, r) < s.len(),
        s[spec_first_index_of(s, r)] == r,
        forall|k: int| 0 <= k < spec_first_index_of(s, r) ==> s[k] != r,
    decreases s.len(),
{
    if s.len() > 0 && s[0] != r {
        assert(s.drop_first().contains(r)) by {
            let i = choose|i: int| 0 <= i < s.len() && s[i] == r;
            assert(s.drop_first()[i - 1] == r);
        }
        lemma_first_index_of(s.drop_first(), r);
        assert forall|k: int| 0 <= k < spec_first_index_of(s, r) implies s[k] != r by {
            if k > 0 {
                assert(s.drop_first()[k - 1] == s[k]);
            }
        }
    }
}

/// A selection consists of one or more selection ranges, kept ascending
/// by low end and non-overlapping, plus the index of the primary range.
#[derive(Debug, Clone)]
pub struct Selection {
    ranges: Vec<Range>,
    primary_index: usize,
}

impl View for Selection {
    type V = Seq<Range>;

    closed spec fn view(&self) -> Seq<Range> {
        self.ranges@
    }
}

/// Stable insertion sort by low end, building the sorted copy outward.
fn sort_ranges_by_from(input: &Vec<Range>) -> (out: Vec<Range>)
    ensures
        out@ == spec_sort_by_from(input@),
{
    let n = input.len();
    let mut out: Vec<Range> = Vec::new();
    let mut i: usize = 0;
    proof {
        assert(input@.take(0) =~= Seq::<Range>::empty());
    }
    while i < n
        invariant
            0 <= i <= n,
            n == input@.len(),
            out@ == spec_sort_by_from(input@.take(i as int)),
        decreases n - i,
    {
        let r = input[i];
        let ghost old_out = out@;
        let mut j: usize = out.len();
        proof {
            assert(old_out.take(j as int) =~= old_out);
            assert(old_out.skip(j as int) =~= Seq::<Range>::empty());
            assert(spec_insert_by_from(old_out.take(j as int), r) + old_out.skip(j as int)
                =~= spec_insert_by_from(old_out, r));
        }
        while j > 0 && out[j - 1].from() > r.from()
            invariant
                0 <= j <= out@.len(),
                out@ == old_out,
                spec_insert_by_from(old_out, r) == spec_insert_by_from(
                    old_out.take(j as int),
                    r,
                ) + old_out.skip(j as int),
            decreases j,
        {
            proof {
                let pre = old_out.take(j as int);
                assert(pre.last() == old_out[j - 1]);
                assert(pre.last().spec_from() > r.spec_from());
                assert(pre.drop_last() =~= old_out.take(j - 1));
                lemma_insert_by_from_len(old_out.take(j - 1), r);
                assert(spec_insert_by_from(pre, r) == spec_insert_by_from(
                    old_out.take(j - 1),
                    r,
                ).push(old_out[j - 1]));
                assert(spec_insert_by_from(old_out.take(j - 1), r).push(old_out[j - 1])
                    + old_out.skip(j as int) =~= spec_insert_by_from(old_out.take(j - 1), r)
                    + old_out.skip(j - 1));
            }
            j -= 1;
        }
        proof {
            let pre = old_out.take(j as int);
            if j > 0 {
                assert(pre.last() == old_out[j - 1]);
                assert(pre.last().spec_from() <= r.spec_from());
                assert(spec_insert_by_from(pre, r) == pre.push(r));
            } else {
                assert(pre =~= Seq::<Range>::empty());
                assert(spec_insert_by_from(pre, r) =~= seq![r]);
                assert(pre.push(r) =~= seq![r]);
            }
            assert(pre.push(r) + old_out.skip(j as int) =~= old_out.insert(j as int, r));
        }
        out.insert(j, r);
        i += 1;
        proof {
            assert(input@.take(i as int).drop_last() =~= input@.take(i - 1));
            assert(input@.take(i as int).last() == input@[i - 1]);
            assert(out@ == spec_insert_by_from(spec_sort_by_from(input@.take(i - 1)), input@[i
                - 1]));
        }
    }
    proof {
        assert(input@.take(n as int) =~= input@);
    }
    out
}

impl Selection {
    /// The position of the primary range within the normalized sequence.
    pub closed spec fn spec_primary_index(&self) -> int {
        self.primary_index as int
    }

    /// Well-formedness: at least one range, ranges ascending by low end,
    /// no later range overlapping an earlier one, and a valid primary
    /// index.
    pub open spec fn inv(&self) -> bool {
        &&& self@.len() > 0
        &&& spec_sorted_by_from(self@)
        &&& spec_nonoverlapping(self@)
        &&& 0 <= self.spec_primary_index() < self@.len()
    }

    /// Constructs a selection holding a single range.
    pub fn single(anchor: usize, head: usize) -> (result: Selection)
        ensures
            result@ == seq![Range { anchor, head }],
            result.spec_primary_index() == 0,
            result.inv(),
    {
        let mut ranges: Vec<Range> = Vec::new();
        ranges.push(Range { anchor, head });
        proof {
            assert(ranges@ =~= seq![Range { anchor, head }]);
        }
        Selection { ranges, primary_index: 0 }
    }

    /// Constructs a selection holding a single cursor.
    pub fn point(pos: usize) -> (result: Selection)
        ensures
            result@ == seq![Range { anchor: pos, head: pos }],
            result.spec_primary_index() == 0,
            result.inv(),
    {
        Selection::single(pos, pos)
    }

    /// General constructor: takes arbitrary ranges and a claimed primary
    /// index, and normalizes. A single supplied range is taken as-is with
    /// the primary forced to the front.
    pub fn new(ranges: Vec<Range>, primary_index: usize) -> (result: Selection)
        requires
            ranges@.len() > 0,
            (primary_index as int) < ranges@.len(),
        ensures
            result.inv(),
            (result@, result.spec_primary_index()) == spec_selection_new(
                ranges@,
                primary_index as int,
            ),
            result@.len() <= ranges@.len(),
    {
        let n = ranges.len();
        if n == 1 {
            let result = Selection { ranges, primary_index: 0 };
            return result;
        }
        let primary = ranges[primary_index];
        let sorted = sort_ranges_by_from(&ranges);
        proof {
            lemma_sort_by_from_len(ranges@);
            lemma_sort_by_from_sorted(ranges@);
            assert(ranges@.contains(primary)) by {
                assert(ranges@[primary_index as int] == primary);
            }
            lemma_sort_by_from_contains(ranges@, primary);
            lemma_first_index_of(sorted@, primary);
        }
        let ghost fi = spec_first_index_of(sorted@, primary);
        let mut p0: usize = 0;
        while sorted[p0] != primary
            invariant
                0 <= p0 <= fi,
                fi == spec_first_index_of(sorted@, primary),
                0 <= fi < sorted@.len(),
                sorted@[fi] == primary,
                forall|k: int| 0 <= k < fi ==> sorted@[k] != primary,
                sorted@.len() <= usize::MAX,
            decreases fi - p0,
        {
            assert(p0 < fi);
            p0 += 1;
        }
        assert(p0 == fi);
        let mut out: Vec<Range> = Vec::new();
        let mut p: usize = 0;
        let mut i: usize = 0;
        while i < n
            invariant
                0 <= i <= n,
                n == sorted@.len(),
                n > 1,
                spec_sorted_by_from(sorted@),
                0 <= fi < n,
                p0 == fi,
                out@ == spec_merge_upto(sorted@, fi, i as int).0,
                p as int == spec_merge_upto(sorted@, fi, i as int).1,
            decreases n - i,
        {
            proof {
                lemma_merge_upto_props(sorted@, fi, i as int);
                lemma_merge_upto_props(sorted@, fi, i as int + 1);
            }
            let r = sorted[i];
            let mut did_merge = false;
            if out.len() > 0 {
                let prev = out[out.len() - 1];
                if r.overlaps(&prev) {
                    let f = prev.from();
                    let rt = r.to();
                    let pt = prev.to();
                    let t = if rt >= pt {
                        rt
                    } else {
                        pt
                    };
                    let merged = if r.anchor > r.head {
                        Range { anchor: t, head: f }
                    } else {
                        Range { anchor: f, head: t }
                    };
                    let ghost before = out@;
                    let _last = out.pop();
                    out.push(merged);
                    proof {
                        assert(merged == spec_merge_two(before.last(), r));
                        assert(before.subrange(0, before.len() - 1) =~= before.drop_last());
                    }
                    did_merge = true;
                }
            }
            if !did_merge {
                out.push(r);
            }
            if i == p0 {
                p = out.len() - 1;
            }
            i += 1;
        }
        proof {
            lemma_merge_upto_props(sorted@, fi, n as int);
        }
        Selection { ranges: out, primary_index: p }
    }

    /// The primary range, the one treated as active for single-cursor
    /// operations.
    pub fn primary(&self) -> (r: Range)
        requires
            self.inv(),
        ensures
            r == self@[self.spec_primary_index()],
    {
        self.ranges[self.primary_index]
    }

    /// The reported cursor position: the head of the primary range.
    pub fn cursor(&self) -> (r: usize)
        requires
            self.inv(),
        ensures
            r == self@[self.spec_primary_index()].head,
    {
        self.primary().head
    }

    /// Ensure selection containing only the primary selection.
    pub fn into_single(self) -> (result: Selection)
        requires
            self.inv(),
        ensures
            result@ == seq![self@[self.spec_primary_index()]],
            result.spec_primary_index() == 0,
            result.inv(),
    {
        if self.ranges.len() == 1 {
            proof {
                assert(self@ =~= seq![self@[self.spec_primary_index()]]);
            }
            self
        } else {
            let mut ranges: Vec<Range> = Vec::new();
            ranges.push(self.ranges[self.primary_index]);
            proof {
                assert(ranges@ =~= seq![self@[self.spec_primary_index()]]);
            }
            Selection { ranges, primary_index: 0 }
        }
    }

    /// Read-only view of the normalized ranges, ascending by low end.
    pub fn ranges(&self) -> (r: &Vec<Range>)
        ensures
            r@ == self@,
    {
        &self.ranges
    }

    /// Map selections over a set of changes and re-normalize, since an
    /// edit can make previously distant ranges collide or merge. An empty
    /// changeset leaves the selection untouched.
    pub fn map(self, changes: &ChangeSet) -> (result: Selection)
        requires
            self.inv(),
            changes.inv(),
            forall|k: int|
                0 <= k < self@.len() ==> (#[trigger] self@[k]).anchor + spec_insert_sum(changes@)
                    <= usize::MAX && self@[k].head + spec_insert_sum(changes@) <= usize::MAX,
        ensures
            result.inv(),
            changes@.len() == 0 ==> result@ == self@ && result.spec_primary_index()
                == self.spec_primary_index(),
            changes@.len() > 0 ==> (result@, result.spec_primary_index()) == spec_selection_new(
                spec_map_all(self@, changes@),
                self.spec_primary_index(),
            ),
    {
        if changes.is_empty() {
            return self;
        }
        let ghost orig = self@;
        let n = self.ranges.len();
        let mut mapped: Vec<Range> = Vec::new();
        let mut i: usize = 0;
        while i < n
            invariant
                0 <= i <= n,
                n == orig.len(),
                self@ == orig,
                self.inv(),
                changes.inv(),
                forall|k: int|
                    0 <= k < orig.len() ==> (#[trigger] orig[k]).anchor + spec_insert_sum(changes@)
                        <= usize::MAX && orig[k].head + spec_insert_sum(changes@) <= usize::MAX,
                mapped@ =~= spec_map_all(orig, changes@).take(i as int),
            decreases n - i,
        {
            let r = self.ranges[i].map(changes);
            mapped.push(r);
            i += 1;
        }
        proof {
            assert(mapped@ =~= spec_map_all(orig, changes@));
        }
        Selection::new(mapped, self.primary_index)
    }

    /// Takes a closure and maps each range over the closure, then
    /// re-normalizes the outcome.
    pub fn transform<F: Fn(Range) -> Range>(&self, f: F) -> (result: Selection)
        requires
            self.inv(),
            forall|rg: Range| self@.contains(rg) ==> call_requires(f, (rg,)),
        ensures
            result.inv(),
            exists|mapped: Seq<Range>|
                {
                    &&& mapped.len() == self@.len()
                    &&& (forall|k: int|
                        0 <= k < mapped.len() ==> call_ensures(
                            f,
                            (self@[k],),
                            #[trigger] mapped[k],
                        ))
                    &&& (result@, result.spec_primary_index()) == spec_selection_new(
                        mapped,
                        self.spec_primary_index(),
                    )
                },
    {
        let n = self.ranges.len();
        let mut mapped: Vec<Range> = Vec::new();
        let mut i: usize = 0;
        while i < n
            invariant
                0 <= i <= n,
                n == self@.len(),
                self.inv(),
                forall|rg: Range| self@.contains(rg) ==> call_requires(f, (rg,)),
                mapped@.len() == i,
                forall|k: int|
                    0 <= k < i ==> call_ensures(f, (self@[k],), #[trigger] mapped@[k]),
            decreases n - i,
        {
            assert(self@.contains(self@[i as int]));
            let y = f(self.ranges[i]);
            mapped.push(y);
            i += 1;
        }
        let ghost witness = mapped@;
        let result = Selection::new(mapped, self.primary_index);
        proof {
            assert(witness.len() == self@.len());
            assert((result@, result.spec_primary_index()) == spec_selection_new(
                witness,
                self.spec_primary_index(),
            ));
        }
        result
    }

    /// The fragment of every range, in normalized order.
    pub fn fragments(&self, text: &TextView) -> (out: Vec<Vec<char>>)
        requires
            forall|k: int|
                0 <= k < self@.len() ==> (#[trigger] self@[k]).spec_to() + 1 <= text@.len(),
        ensures
            out@.len() == self@.len(),
            forall|k: int|
                0 <= k < self@.len() ==> (#[trigger] out@[k])@ == text@.subrange(
                    self@[k].spec_from() as int,
                    self@[k].spec_to() + 1,
                ),
    {
        let n = self.ranges.len();
        let mut out: Vec<Vec<char>> = Vec::new();
        let mut i: usize = 0;
        while i < n
            invariant
                0 <= i <= n,
                n == self@.len(),
                forall|k: int|
                    0 <= k < self@.len() ==> (#[trigger] self@[k]).spec_to() + 1 <= text@.len(),
                out@.len() == i,
                forall|k: int|
                    0 <= k < i ==> (#[trigger] out@[k])@ == text@.subrange(
                        self@[k].spec_from() as int,
                        self@[k].spec_to() + 1,
                    ),
            decreases n - i,
        {
            assert(self@[i as int].spec_to() + 1 <= text@.len());
            let frag = self.ranges[i].fragment(text);
            out.push(frag);
            i += 1;
        }
        out
    }
}

/// Each range remapped through the queued edits.
pub open spec fn spec_map_all(s: Seq<Range>, cs: Seq<Change>) -> Seq<Range> {
    Seq::new(s.len(), |k: int| s[k].spec_map(cs))
}

/// The merge pass over already sorted, non-overlapping ranges absorbs
/// nothing and leaves the tracked primary where it was relocated to.
proof fn lemma_merge_of_nonoverlapping_identity(s: Seq<Range>, p0: int, k: int)
    requires
        spec_sorted_by_from(s),
        spec_nonoverlapping(s),
        0 <= p0 < s.len(),
        0 <= k <= s.len(),
    ensures
        spec_merge_upto(s, p0, k).0 == s.take(k),
        k > p0 ==> spec_merge_upto(s, p0, k).1 == p0,
        k <= p0 ==> spec_merge_upto(s, p0, k).1 == 0,
    decreases k,
{
    if k == 0 {
        assert(s.take(0) =~= Seq::<Range>::empty());
    } else {
        lemma_merge_of_nonoverlapping_identity(s, p0, k - 1);
        let acc = s.take(k - 1);
        let r = s[k - 1];
        if acc.len() > 0 {
            assert(acc.last() == s[k - 2]);
            assert(!r.spec_overlaps(s[k - 2]));
        }
        assert(acc.push(r) =~= s.take(k));
    }
}

/// Law: normalization is idempotent. Feeding a selection's own ranges and
/// primary index back through normalization returns them unchanged.
pub proof fn lemma_normalize_idempotent(s: Seq<Range>, p: int)
    requires
        s.len() > 0,
        spec_sorted_by_from(s),
        spec_nonoverlapping(s),
        0 <= p < s.len(),
    ensures
        spec_normalize(s, p) == (s, p),
{
    lemma_sort_of_sorted_identity(s);
    assert forall|i: int, j: int| 0 <= i < j < s.len() implies s[i] != s[j] by {
        assert(!s[j].spec_overlaps(s[i]));
    }
    let primary = s[p];
    assert(s.contains(primary));
    lemma_first_index_of(s, primary);
    let fi = spec_first_index_of(s, primary);
    assert(fi == p) by {
        if fi < p {
            assert(s[fi] == s[p]);
        }
    }
    lemma_merge_of_nonoverlapping_identity(s, p, s.len() as int);
    assert(s.take(s.len() as int) =~= s);
}

/// Law: feeding a well-formed selection's own ranges and primary index
/// back through the general constructor returns them unchanged.
pub proof fn lemma_selection_new_idempotent(s: &Selection)
    requires
        s.inv(),
    ensures
        spec_selection_new(s@, s.spec_primary_index()) == (s@, s.spec_primary_index()),
{
    if s@.len() > 1 {
        lemma_normalize_idempotent(s@, s.spec_primary_index());
    }
}

/// Law: the tracked primary index always points at the range that the
/// claimed primary survived as or was merged into: the resulting primary's
/// span covers the span of the claimed primary.
pub proof fn lemma_primary_target_covers(ranges: Seq<Range>, p: int)
    requires
        ranges.len() > 0,
        0 <= p < ranges.len(),
    ensures
        ({
            let out = spec_normalize(ranges, p).0;
            let q = spec_normalize(ranges, p).1;
            &&& 0 <= q < out.len()
            &&& out[q].spec_from() <= ranges[p].spec_from()
            &&& ranges[p].spec_to() <= out[q].spec_to()
        }),
{
    let primary = ranges[p];
    lemma_sort_by_from_len(ranges);
    lemma_sort_by_from_sorted(ranges);
    assert(ranges.contains(primary)) by {
        assert(ranges[p] == primary);
    }
    lemma_sort_by_from_contains(ranges, primary);
    let sorted = spec_sort_by_from(ranges);
    lemma_first_index_of(sorted, primary);
    let fi = spec_first_index_of(sorted, primary);
    lemma_merge_upto_props(sorted, fi, sorted.len() as int);
}

/// The merge pass neither absorbs nor extends the range at sorted
/// position `p0` when every earlier range ends at its low end or before
/// (strictly before for a cursor) and its immediate successor does not
/// overlap it; the tracked index then lands exactly on it.
proof fn lemma_merge_upto_primary_survives(s: Seq<Range>, p0: int, k: int)
    requires
        spec_sorted_by_from(s),
        0 <= p0 < s.len(),
        0 <= k <= s.len(),
        forall|i: int| 0 <= i < p0 ==> (#[trigger] s[i]).spec_to() <= s[p0].spec_from(),
        s[p0].spec_is_empty() ==> forall|i: int|
            0 <= i < p0 ==> (#[trigger] s[i]).spec_to() < s[p0].spec_from(),
        p0 + 1 < s.len() ==> !s[p0 + 1].spec_overlaps(s[p0]),
    ensures
        0 < k <= p0 ==> spec_merge_upto(s, p0, k).0.last().spec_to() <= s[p0].spec_from(),
        0 < k <= p0 && s[p0].spec_is_empty() ==> spec_merge_upto(s, p0, k).0.last().spec_to() < s[
            p0].spec_from(),
        k > p0 ==> 0 <= spec_merge_upto(s, p0, k).1 < spec_merge_upto(s, p0, k).0.len(),
        k > p0 ==> spec_merge_upto(s, p0, k).0[spec_merge_upto(s, p0, k).1] == s[p0],
        k == p0 + 1 ==> spec_merge_upto(s, p0, k).1 == spec_merge_upto(s, p0, k).0.len() - 1,
        k >= p0 + 2 ==> spec_merge_upto(s, p0, k).1 < spec_merge_upto(s, p0, k).0.len() - 1,
    decreases k,
{
    if k > 0 {
        lemma_merge_upto_primary_survives(s, p0, k - 1);
        lemma_merge_upto_props(s, p0, k - 1);
        let prev = spec_merge_upto(s, p0, k - 1);
        let acc = prev.0;
        let p = prev.1;
        let r = s[k - 1];
        if k - 1 < p0 {
            if acc.len() > 0 && r.spec_overlaps(acc.last()) {
                let merged = spec_merge_two(acc.last(), r);
                assert(merged.spec_to() == if r.spec_to() >= acc.last().spec_to() {
                    r.spec_to()
                } else {
                    acc.last().spec_to()
                });
            }
        } else if k - 1 == p0 {
            if acc.len() > 0 {
                assert(!r.spec_overlaps(acc.last()));
            }
        } else if k - 1 == p0 + 1 {
            assert(acc[p] == s[p0]);
            assert(acc.last() == s[p0]);
            assert(!r.spec_overlaps(acc.last()));
        } else {
            assert(acc[p] == s[p0]);
            if acc.len() > 0 && r.spec_overlaps(acc.last()) {
                assert(spec_merge_upto(s, p0, k).0[p] == acc[p]);
            }
        }
    }
}

/// Law: the claimed primary range is preserved exactly whenever it
/// survives the merge pass unmerged, that is, whenever among the sorted
/// ranges every one before the primary's first occurrence ends at or
/// before its low end (strictly before for a cursor, which a touching
/// range would absorb) and the range right after it does not overlap it:
/// the resulting primary then equals it by value.
pub proof fn lemma_primary_preserved_when_unmerged(ranges: Seq<Range>, p: int)
    requires
        ranges.len() > 0,
        0 <= p < ranges.len(),
        ({
            let sorted = spec_sort_by_from(ranges);
            let primary = ranges[p];
            let fi = spec_first_index_of(sorted, primary);
            &&& forall|i: int|
                0 <= i < fi ==> (#[trigger] sorted[i]).spec_to() <= primary.spec_from()
            &&& primary.spec_is_empty() ==> forall|i: int|
                0 <= i < fi ==> (#[trigger] sorted[i]).spec_to() < primary.spec_from()
            &&& fi + 1 < sorted.len() ==> !sorted[fi + 1].spec_overlaps(primary)
        }),
    ensures
        ({
            let out = spec_normalize(ranges, p).0;
            let q = spec_normalize(ranges, p).1;
            &&& 0 <= q < out.len()
            &&& out[q] == ranges[p]
        }),
{
    let primary = ranges[p];
    lemma_sort_by_from_len(ranges);
    lemma_sort_by_from_sorted(ranges);
    assert(ranges.contains(primary)) by {
        assert(ranges[p] == primary);
    }
    lemma_sort_by_from_contains(ranges, primary);
    let sorted = spec_sort_by_from(ranges);
    lemma_first_index_of(sorted, primary);
    let fi = spec_first_index_of(sorted, primary);
    lemma_merge_upto_primary_survives(sorted, fi, sorted.len() as int);
}

/// Law: when sorting leaves the ranges pairwise non-overlapping (so the
/// merge pass absorbs nothing), the claimed primary range is preserved
/// exactly: the resulting primary equals it by value.
pub proof fn lemma_primary_preserved_without_merges(ranges: Seq<Range>, p: int)
    requires
        ranges.len() > 0,
        0 <= p < ranges.len(),
        spec_nonoverlapping(spec_sort_by_from(ranges)),
    ensures
        ({
            let out = spec_normalize(ranges, p).0;
            let q = spec_normalize(ranges, p).1;
            &&& out == spec_sort_by_from(ranges)
            &&& 0 <= q < out.len()
            &&& out[q] == ranges[p]
        }),
{
    let primary = ranges[p];
    lemma_sort_by_from_len(ranges);
    lemma_sort_by_from_sorted(ranges);
    assert(ranges.contains(primary)) by {
        assert(ranges[p] == primary);
    }
    lemma_sort_by_from_contains(ranges, primary);
    let sorted = spec_sort_by_from(ranges);
    lemma_first_index_of(sorted, primary);
    let fi = spec_first_index_of(sorted, primary);
    lemma_merge_of_nonoverlapping_identity(sorted, fi, sorted.len() as int);
    assert(sorted.take(sorted.len() as int) =~= sorted);
}

} // verus!
