//! Splitting every range of a selection on the matches of a pattern: the
//! matches act as delimiters, are excluded from the result, and the
//! pieces between them become the ranges of a fresh selection.

use vstd::prelude::*;

use crate::range::Range;
use crate::selection::{spec_selection_new, Selection};
use crate::text::{
    lemma_boundary_unique, lemma_bytes_upto_mono, lemma_bytes_upto_subrange, spec_byte_to_char,
    spec_bytes_upto, spec_is_char_boundary, TextView,
};

verus! {

/// `regex::Regex` as an opaque compiled pattern.
#[verifier::external_type_specification]
#[verifier::external_body]
pub struct ExRegex(regex::Regex);

/// Match spans over the byte encoding of the haystack `s`: each within
/// the encoded length, start before end, both on character boundaries,
/// and successive spans non-overlapping in ascending order.
pub open spec fn spec_matches_valid(ms: Seq<(usize, usize)>, s: Seq<char>) -> bool {
    &&& forall|k: int|
        0 <= k < ms.len() ==> (#[trigger] ms[k]).0 <= ms[k].1 <= spec_bytes_upto(
            s,
            s.len() as int,
        )
    &&& forall|k: int|
        0 <= k < ms.len() ==> spec_is_char_boundary(s, (#[trigger] ms[k]).0 as int)
            && spec_is_char_boundary(s, ms[k].1 as int)
    &&& forall|k: int| 0 <= k < ms.len() - 1 ==> (#[trigger] ms[k]).1 <= ms[k + 1].0
}

/// Relies on `regex::Regex::find_iter`: it yields the successive
/// non-overlapping matches of the pattern in the haystack, leftmost
/// first, each reported as a byte-offset span into the haystack's UTF-8
/// encoding; spans end no later than the haystack does and lie on
/// character boundaries, a match being a valid substring.
#[verifier::external_body]
fn find_matches(re: &regex::Regex, hay: &Vec<char>) -> (ms: Vec<(usize, usize)>)
    ensures
        spec_matches_valid(ms@, hay@),
{
    let s: String = hay.iter().collect();
    re.find_iter(&s).map(|m| (m.start(), m.end())).collect()
}

/// The sub-ranges emitted for one selection range, scanning its matches
/// left to right: before each match one piece from the cursor to the
/// character just before the match, the cursor then jumping past the
/// match; after the last match one trailing piece, if the cursor has not
/// passed the range's end. `sb` is the byte offset of the range's low
/// end, `endpos` its high end, `start` the cursor.
pub open spec fn spec_split_range_rec(
    t: Seq<char>,
    sb: int,
    endpos: int,
    start: int,
    ms: Seq<(usize, usize)>,
) -> Seq<Range>
    decreases ms.len(),
{
    if ms.len() == 0 {
        if start <= endpos {
            seq![Range { anchor: start as usize, head: endpos as usize }]
        } else {
            Seq::<Range>::empty()
        }
    } else {
        let e = spec_byte_to_char(t, sb + ms[0].0);
        let ns = spec_byte_to_char(t, sb + ms[0].1);
        seq![Range { anchor: start as usize, head: (e - 1) as usize }] + spec_split_range_rec(
            t,
            sb,
            endpos,
            ns,
            ms.drop_first(),
        )
    }
}

/// The sub-ranges emitted for one selection range.
pub open spec fn spec_split_one(t: Seq<char>, r: Range, ms: Seq<(usize, usize)>) -> Seq<Range> {
    spec_split_range_rec(
        t,
        spec_bytes_upto(t, r.spec_from() as int),
        r.spec_to() as int,
        r.spec_from() as int,
        ms,
    )
}

/// All sub-ranges across all selection ranges, in order.
pub open spec fn spec_split_all(
    t: Seq<char>,
    rs: Seq<Range>,
    msall: Seq<Seq<(usize, usize)>>,
) -> Seq<Range>
    decreases rs.len(),
{
    if rs.len() == 0 {
        Seq::<Range>::empty()
    } else {
        spec_split_all(t, rs.drop_last(), msall.drop_last()) + spec_split_one(
            t,
            rs.last(),
            msall.last(),
        )
    }
}

/// The degenerate case: a match begins at the very start of a range whose
/// low end is character offset zero, so the piece before the match would
/// end at the character before offset zero, which does not exist.
pub open spec fn spec_split_degenerate_one(r: Range, ms: Seq<(usize, usize)>) -> bool {
    r.spec_from() == 0 && exists|j: int| 0 <= j < ms.len() && (#[trigger] ms[j]).0 == 0
}

/// The degenerate case anywhere in the selection.
pub open spec fn spec_split_degenerate(rs: Seq<Range>, msall: Seq<Seq<(usize, usize)>>) -> bool {
    exists|k: int| 0 <= k < rs.len() && spec_split_degenerate_one(#[trigger] rs[k], msall[k])
}

/// The per-range match lists as sequences.
pub open spec fn spec_match_views(mv: Seq<Vec<(usize, usize)>>) -> Seq<Seq<(usize, usize)>> {
    Seq::new(mv.len(), |k: int| mv[k]@)
}

/// Split every range of the selection at the given per-range match spans
/// (byte offsets into each range's fragment), collecting the pieces
/// between matches into a fresh selection with the primary reset to the
/// front. Returns nothing exactly in the degenerate case.
#[verifier::loop_isolation(false)]
pub fn split_on_given_matches(
    text: &TextView,
    selections: &Selection,
    matches: &Vec<Vec<(usize, usize)>>,
) -> (result: Option<Selection>)
    requires
        text.inv(),
        selections.inv(),
        forall|k: int|
            0 <= k < selections@.len() ==> (#[trigger] selections@[k]).spec_to() + 1
                <= text@.len(),
        matches@.len() == selections@.len(),
        forall|k: int|
            0 <= k < matches@.len() ==> spec_matches_valid(
                (#[trigger] matches@[k])@,
                text@.subrange(
                    selections@[k].spec_from() as int,
                    selections@[k].spec_to() + 1,
                ),
            ),
    ensures
        result is Some <==> !spec_split_degenerate(selections@, spec_match_views(matches@)),
        result matches Some(sel) ==> sel.inv() && (sel@, sel.spec_primary_index())
            == spec_selection_new(
            spec_split_all(text@, selections@, spec_match_views(matches@)),
            0,
        ),
{
    let ghost t = text@;
    let ghost rs_view = selections@;
    let ghost msall = spec_match_views(matches@);
    let rs = selections.ranges();
    let n = rs.len();
    let mut result: Vec<Range> = Vec::new();
    let mut k: usize = 0;
    while k < n
        invariant
            0 <= k <= n,
            result@ == spec_split_all(t, rs_view.take(k as int), msall.take(k as int)),
            result@.len() >= k,
            forall|kk: int|
                0 <= kk < k ==> !spec_split_degenerate_one(
                    #[trigger] rs_view[kk],
                    msall[kk],
                ),
        decreases n - k,
    {
        let r = rs[k];
        let ghost frag = t.subrange(r.spec_from() as int, r.spec_to() + 1);
        let ghost fb = spec_bytes_upto(frag, frag.len() as int);
        let sel_start = r.from();
        let sel_end = r.to();
        proof {
            lemma_bytes_upto_subrange(t, sel_start as int, sel_end + 1, frag.len() as int);
            lemma_bytes_upto_mono(t, sel_end + 1, t.len() as int);
        }
        let start_byte = text.char_to_byte(sel_start);
        let ghost sb = start_byte as int;
        let mut start = sel_start;
        let ghost base = result@;
        let ghost mut part = Seq::<Range>::empty();
        let ms = &matches[k];
        let m_count = ms.len();
        let mut j: usize = 0;
        proof {
            assert(ms@.skip(0) =~= ms@);
            assert(base + part =~= base);
            assert(msall[k as int] == ms@);
        }
        while j < m_count
            invariant
                0 <= j <= m_count,
                start <= t.len(),
                result@ == base + part,
                spec_split_one(t, r, ms@) == part + spec_split_range_rec(
                    t,
                    sb,
                    sel_end as int,
                    start as int,
                    ms@.skip(j as int),
                ),
                forall|jj: int| 0 <= jj < j ==> !(sel_start == 0 && (#[trigger] ms@[jj]).0 == 0),
            decreases m_count - j,
        {
            let m = ms[j];
            proof {
                assert(ms@[j as int].0 <= ms@[j as int].1 <= fb);
                assert(spec_is_char_boundary(frag, m.0 as int));
                let wa = choose|w: int|
                    0 <= w <= frag.len() && spec_bytes_upto(frag, w) == m.0 as int;
                lemma_bytes_upto_subrange(t, sel_start as int, sel_end + 1, wa);
                assert(spec_bytes_upto(t, sel_start + wa) == sb + m.0);
                assert(spec_is_char_boundary(t, sb + m.0));
                let wb = choose|w: int|
                    0 <= w <= frag.len() && spec_bytes_upto(frag, w) == m.1 as int;
                lemma_bytes_upto_subrange(t, sel_start as int, sel_end + 1, wb);
                assert(spec_bytes_upto(t, sel_start + wb) == sb + m.1);
                assert(spec_is_char_boundary(t, sb + m.1));
            }
            let e = text.byte_to_char(start_byte + m.0);
            if e == 0 {
                proof {
                    assert(spec_bytes_upto(t, 0) == 0);
                    assert(sb + m.0 == 0);
                    lemma_bytes_upto_mono(t, 0, sel_start as int);
                    assert(sel_start == 0);
                    assert(r.spec_from() == 0);
                    assert(ms@[j as int].0 == 0);
                    assert(spec_split_degenerate_one(rs_view[k as int], msall[k as int]));
                    assert(spec_split_degenerate(rs_view, msall));
                }
                return None;
            }
            proof {
                if sel_start == 0 && ms@[j as int].0 == 0 {
                    assert(spec_bytes_upto(t, 0) == 0);
                    assert(sb + m.0 == 0);
                    lemma_boundary_unique(t, e as int, 0);
                }
            }
            result.push(Range { anchor: start, head: e - 1 });
            let ns = text.byte_to_char(start_byte + m.1);
            proof {
                let piece = Range { anchor: start, head: (e - 1) as usize };
                assert(ms@.skip(j as int)[0] == ms@[j as int]);
                assert(ms@.skip(j as int).drop_first() =~= ms@.skip(j as int + 1));
                assert(spec_split_range_rec(t, sb, sel_end as int, start as int, ms@.skip(j as int))
                    == seq![piece] + spec_split_range_rec(
                    t,
                    sb,
                    sel_end as int,
                    ns as int,
                    ms@.skip(j as int + 1),
                ));
                part = part.push(piece);
                assert(part + spec_split_range_rec(
                    t,
                    sb,
                    sel_end as int,
                    ns as int,
                    ms@.skip(j as int + 1),
                ) =~= (part.drop_last() + (seq![piece] + spec_split_range_rec(
                    t,
                    sb,
                    sel_end as int,
                    ns as int,
                    ms@.skip(j as int + 1),
                ))));
                assert(result@ =~= base + part);
            }
            start = ns;
            j += 1;
        }
        proof {
            assert(ms@.skip(m_count as int) =~= Seq::<(usize, usize)>::empty());
        }
        if start <= sel_end {
            result.push(Range { anchor: start, head: sel_end });
            proof {
                part = part.push(Range { anchor: start, head: sel_end });
                assert(result@ =~= base + part);
                assert(spec_split_one(t, r, ms@) =~= part);
            }
        } else {
            proof {
                assert(spec_split_one(t, r, ms@) =~= part);
            }
        }
        proof {
            assert(spec_split_one(t, r, ms@).len() >= 1) by {
                if ms@.len() == 0 {
                    assert(r.spec_from() <= r.spec_to());
                }
            }
            assert(rs_view.take(k + 1).drop_last() =~= rs_view.take(k as int));
            assert(msall.take(k + 1).drop_last() =~= msall.take(k as int));
            assert(rs_view.take(k + 1).last() == r);
            assert(msall.take(k + 1).last() == ms@);
            assert(result@ == spec_split_all(t, rs_view.take(k + 1), msall.take(k + 1)));
            assert(!spec_split_degenerate_one(rs_view[k as int], msall[k as int])) by {
                if sel_start != 0 {
                }
            }
        }
        k += 1;
    }
    proof {
        assert(rs_view.take(n as int) =~= rs_view);
        assert(msall.take(n as int) =~= msall);
        assert(!spec_split_degenerate(rs_view, msall));
    }
    Some(Selection::new(result, 0))
}

/// Split every range of the selection on the pattern's non-overlapping
/// matches, the matches acting as excluded delimiters. Whatever matches
/// the pattern engine reports, the outcome is the normalized selection of
/// the pieces between them, primary reset to the front; nothing is
/// returned exactly in the degenerate case where a match begins at the
/// very start of a range lying at character offset zero.
pub fn split_on_matches(
    text: &TextView,
    selections: &Selection,
    regex: &regex::Regex,
) -> (result: Option<Selection>)
    requires
        text.inv(),
        selections.inv(),
        forall|k: int|
            0 <= k < selections@.len() ==> (#[trigger] selections@[k]).spec_to() + 1
                <= text@.len(),
    ensures
        result matches Some(sel) ==> sel.inv(),
        exists|msall: Seq<Seq<(usize, usize)>>|
            {
                &&& msall.len() == selections@.len()
                &&& (forall|k: int|
                    0 <= k < msall.len() ==> spec_matches_valid(
                        #[trigger] msall[k],
                        text@.subrange(
                            selections@[k].spec_from() as int,
                            selections@[k].spec_to() + 1,
                        ),
                    ))
                &&& (result is Some <==> !spec_split_degenerate(selections@, msall))
                &&& (result matches Some(sel) ==> (sel@, sel.spec_primary_index())
                    == spec_selection_new(spec_split_all(text@, selections@, msall), 0))
            },
{
    let rs = selections.ranges();
    let n = rs.len();
    let mut matches: Vec<Vec<(usize, usize)>> = Vec::new();
    let mut k: usize = 0;
    while k < n
        invariant
            0 <= k <= n,
            n == selections@.len(),
            text.inv(),
            selections.inv(),
            rs@ == selections@,
            forall|i: int|
                0 <= i < selections@.len() ==> (#[trigger] selections@[i]).spec_to() + 1
                    <= text@.len(),
            matches@.len() == k,
            forall|i: int|
                0 <= i < k ==> spec_matches_valid(
                    (#[trigger] matches@[i])@,
                    text@.subrange(
                        selections@[i].spec_from() as int,
                        selections@[i].spec_to() + 1,
                    ),
                ),
        decreases n - k,
    {
        assert(selections@[k as int].spec_to() + 1 <= text@.len());
        let frag = rs[k].fragment(text);
        let ms = find_matches(regex, &frag);
        matches.push(ms);
        k += 1;
    }
    let result = split_on_given_matches(text, selections, &matches);
    proof {
        let msall = spec_match_views(matches@);
        assert(msall.len() == selections@.len());
        assert(forall|i: int|
            0 <= i < msall.len() ==> spec_matches_valid(
                #[trigger] msall[i],
                text@.subrange(
                    selections@[i].spec_from() as int,
                    selections@[i].spec_to() + 1,
                ),
            ));
    }
    result
}

} // verus!
