//! A minimal model of the change-tracking collaborator: a batch of queued
//! document edits, ordered and non-overlapping, together with the position
//! remapping that applying them induces.

use vstd::prelude::*;

verus! {

/// Bias for remapping a position that sits exactly at an insertion point:
/// resolve to the position immediately before the inserted text, or
/// immediately after it.
#[derive(Debug, Clone, Copy, PartialEq, Eq, Structural)]
pub enum Assoc {
    Before,
    After,
}

/// One edit: at character offset `pos` of the old document, `delete`
/// characters are removed and `insert` characters are put in their place.
#[derive(Debug, Clone, Copy, PartialEq, Eq, Structural)]
pub struct Change {
    pub pos: usize,
    pub delete: usize,
    pub insert: usize,
}

impl Change {
    /// One past the last old-document offset touched by this edit.
    pub open spec fn spec_end(self) -> int {
        self.pos + self.delete
    }
}

/// Edits are valid as a batch when they are ascending, their deleted spans
/// do not overlap, and each span stays within addressable offsets.
pub open spec fn spec_changes_valid(cs: Seq<Change>) -> bool {
    &&& forall|i: int| 0 <= i < cs.len() ==> (#[trigger] cs[i]).spec_end() <= usize::MAX
    &&& forall|i: int|
        0 <= i < cs.len() - 1 ==> (#[trigger] cs[i]).spec_end() <= cs[i + 1].pos
}

/// Total number of characters the batch inserts.
pub open spec fn spec_insert_sum(cs: Seq<Change>) -> int
    decreases cs.len(),
{
    if cs.len() == 0 {
        0
    } else {
        cs[0].insert + spec_insert_sum(cs.drop_first())
    }
}

/// Where `pos` lands once the edits in `cs` are applied, given that the
/// edits already processed shifted positions by `delta`. A position before
/// an edit is unmoved; one exactly at an edit's start resolves to the edit
/// point, before or after the inserted text according to the bias; one
/// strictly inside a deleted span collapses to the edit point likewise;
/// one past the edit is shifted by the edit's growth and handed on.
pub open spec fn spec_map_pos_from(cs: Seq<Change>, pos: usize, assoc: Assoc, delta: int) -> int
    decreases cs.len(),
{
    if cs.len() == 0 {
        pos + delta
    } else {
        let c = cs[0];
        if pos < c.pos {
            pos + delta
        } else if pos == c.pos {
            if assoc is Before {
                pos + delta
            } else {
                pos + delta + c.insert
            }
        } else if pos < c.spec_end() {
            if assoc is Before {
                c.pos + delta
            } else {
                c.pos + delta + c.insert
            }
        } else {
            spec_map_pos_from(cs.drop_first(), pos, assoc, delta + c.insert - c.delete)
        }
    }
}

/// Where `pos` lands once all edits in `cs` are applied.
pub open spec fn spec_map_pos(cs: Seq<Change>, pos: usize, assoc: Assoc) -> int {
    spec_map_pos_from(cs, pos, assoc, 0)
}

/// A batch of queued document edits.
#[derive(Debug, Clone)]
pub struct ChangeSet {
    changes: Vec<Change>,
}

impl View for ChangeSet {
    type V = Seq<Change>;

    closed spec fn view(&self) -> Seq<Change> {
        self.changes@
    }
}

proof fn lemma_insert_sum_prefix(cs: Seq<Change>, i: int)
    requires
        0 <= i <= cs.len(),
        forall|k: int| 0 <= k < cs.len() ==> (#[trigger] cs[k]).insert >= 0,
    ensures
        spec_insert_sum(cs.take(i)) + spec_insert_sum(cs.skip(i)) == spec_insert_sum(cs),
        spec_insert_sum(cs.take(i)) >= 0,
        spec_insert_sum(cs.skip(i)) >= 0,
    decreases i,
{
    if i == 0 {
        assert(cs.take(0) =~= Seq::<Change>::empty());
        assert(cs.skip(0) =~= cs);
        lemma_insert_sum_nonneg(cs);
    } else {
        lemma_insert_sum_prefix(cs.drop_first(), i - 1);
        assert(cs.take(i).drop_first() =~= cs.drop_first().take(i - 1));
        assert(cs.skip(i) =~= cs.drop_first().skip(i - 1));
    }
}

proof fn lemma_insert_sum_nonneg(cs: Seq<Change>)
    ensures
        spec_insert_sum(cs) >= 0,
    decreases cs.len(),
{
    if cs.len() > 0 {
        lemma_insert_sum_nonneg(cs.drop_first());
    }
}

impl ChangeSet {
    /// Well-formedness: the queued edits are a valid batch.
    pub open spec fn inv(&self) -> bool {
        spec_changes_valid(self@)
    }

    /// A changeset with no queued edits.
    pub fn empty() -> (r: ChangeSet)
        ensures
            r@ == Seq::<Change>::empty(),
            r.inv(),
    {
        let r = ChangeSet { changes: Vec::new() };
        proof {
            assert(r@ =~= Seq::<Change>::empty());
        }
        r
    }

    /// Builds a changeset from a batch of edits; rejects a batch that is
    /// out of order, overlapping, or runs past addressable offsets.
    pub fn from_changes(changes: Vec<Change>) -> (r: Option<ChangeSet>)
        ensures
            r is Some <==> spec_changes_valid(changes@),
            r matches Some(cs) ==> cs@ == changes@ && cs.inv(),
    {
        let n = changes.len();
        let mut i: usize = 0;
        while i < n
            invariant
                0 <= i <= n,
                n == changes@.len(),
                forall|k: int| 0 <= k < i ==> (#[trigger] changes@[k]).spec_end() <= usize::MAX,
                forall|k: int|
                    0 <= k < i && k + 1 < n ==> (#[trigger] changes@[k]).spec_end() <= changes@[k
                        + 1].pos,
            decreases n - i,
        {
            let c = changes[i];
            if c.delete > usize::MAX - c.pos {
                return None;
            }
            if i + 1 < n {
                if c.pos + c.delete > changes[i + 1].pos {
                    return None;
                }
            }
            i += 1;
        }
        Some(ChangeSet { changes })
    }

    /// Whether no edits are queued.
    pub fn is_empty(&self) -> (r: bool)
        ensures
            r == (self@.len() == 0),
    {
        self.changes.len() == 0
    }

    /// Remap a character offset through the queued edits with the given
    /// bias. The offset bound keeps the shifted result addressable.
    pub fn map_pos(&self, pos: usize, assoc: Assoc) -> (r: usize)
        requires
            self.inv(),
            pos + spec_insert_sum(self@) <= usize::MAX,
        ensures
            r == spec_map_pos(self@, pos, assoc),
    {
        let ghost cs = self@;
        let n = self.changes.len();
        let mut ins: usize = 0;
        let mut del: usize = 0;
        let mut i: usize = 0;
        proof {
            assert(cs.take(0) =~= Seq::<Change>::empty());
            assert(cs.skip(0) =~= cs);
        }
        while i < n
            invariant
                0 <= i <= n,
                n == cs.len(),
                cs == self@,
                self.inv(),
                pos + spec_insert_sum(cs) <= usize::MAX,
                ins == spec_insert_sum(cs.take(i as int)),
                i == 0 ==> del == 0,
                i > 0 ==> del <= cs[i - 1].spec_end() && cs[i - 1].spec_end() <= pos,
                spec_map_pos(cs, pos, assoc) == spec_map_pos_from(
                    cs.skip(i as int),
                    pos,
                    assoc,
                    ins - del,
                ),
            decreases n - i,
        {
            proof {
                lemma_insert_sum_prefix(cs, i as int);
                assert(cs.skip(i as int)[0] == cs[i as int]);
            }
            let c = self.changes[i];
            assert(c.spec_end() <= usize::MAX);
            if pos < c.pos {
                assert(del <= pos);
                return pos - del + ins;
            }
            if pos == c.pos {
                proof {
                    lemma_insert_sum_prefix(cs, i as int + 1);
                    assert(cs.take(i as int + 1).drop_last() =~= cs.take(i as int));
                    assert(cs.take(i as int + 1).last() == cs[i as int]);
                    lemma_insert_sum_last(cs.take(i as int + 1));
                }
                if matches!(assoc, Assoc::Before) {
                    return pos - del + ins;
                } else {
                    return pos - del + ins + c.insert;
                }
            }
            if pos < c.pos + c.delete {
                proof {
                    lemma_insert_sum_prefix(cs, i as int + 1);
                    assert(cs.take(i as int + 1).drop_last() =~= cs.take(i as int));
                    assert(cs.take(i as int + 1).last() == cs[i as int]);
                    lemma_insert_sum_last(cs.take(i as int + 1));
                }
                if matches!(assoc, Assoc::Before) {
                    return c.pos - del + ins;
                } else {
                    return c.pos - del + ins + c.insert;
                }
            }
            proof {
                lemma_insert_sum_prefix(cs, i as int + 1);
                assert(cs.take(i as int + 1).drop_last() =~= cs.take(i as int));
                assert(cs.take(i as int + 1).last() == cs[i as int]);
                lemma_insert_sum_last(cs.take(i as int + 1));
                assert(cs.skip(i as int).drop_first() =~= cs.skip(i as int + 1));
            }
            ins = ins + c.insert;
            del = del + c.delete;
            i += 1;
        }
        proof {
            assert(cs.take(n as int) =~= cs);
            assert(cs.skip(n as int) =~= Seq::<Change>::empty());
        }
        assert(del <= pos);
        pos - del + ins
    }
}

proof fn lemma_insert_sum_last(cs: Seq<Change>)
    requires
        cs.len() > 0,
    ensures
        spec_insert_sum(cs) == spec_insert_sum(cs.drop_last()) + cs.last().insert,
    decreases cs.len(),
{
    if cs.len() == 1 {
        assert(cs.drop_last() =~= Seq::<Change>::empty());
        assert(cs.drop_first() =~= Seq::<Change>::empty());
    } else {
        lemma_insert_sum_last(cs.drop_first());
        assert(cs.drop_last().drop_first() =~= cs.drop_first().drop_last());
        assert(cs.drop_first().last() == cs.last());
    }
}

} // verus!
