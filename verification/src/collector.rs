//! Holding back snapshots of a region until it is plain which of them is
//! authoritative: the one with the highest epoch, whatever the order in
//! which they came.

use crate::snapshot::{Snapshot, SnapshotView};
use vstd::prelude::*;

verus! {

/// Snapshots that came in and are not applied yet. No two of them are of the
/// same region at the same epoch.
#[derive(Debug)]
pub struct SnapshotCollector {
    pending: Vec<Snapshot>,
}

impl View for SnapshotCollector {
    type V = Seq<SnapshotView>;

    closed spec fn view(&self) -> Seq<SnapshotView> {
        Seq::new(self.pending@.len(), |i: int| self.pending@[i]@)
    }
}

/// Some snapshot held is of region `region_id`.
pub open spec fn holds_region(held: Seq<SnapshotView>, region_id: u64) -> bool {
    exists|i: int| 0 <= i < held.len() && (#[trigger] held[i]).local.region.id == region_id
}

/// Some snapshot held is of the same region and epoch as `snap`.
pub open spec fn holds_same(held: Seq<SnapshotView>, snap: SnapshotView) -> bool {
    exists|i: int|
        0 <= i < held.len() && (#[trigger] held[i]).local.region.id == snap.local.region.id
            && held[i].local.region.epoch == snap.local.region.epoch
}

/// No two snapshots held are of the same region at the same epoch.
pub open spec fn deduplicated(held: Seq<SnapshotView>) -> bool {
    forall|i: int, j: int|
        0 <= i < j < held.len() && (#[trigger] held[i]).local.region.id == (
        #[trigger] held[j]).local.region.id ==> held[i].local.region.epoch
            != held[j].local.region.epoch
}

/// The snapshot at `i` is of region `region_id`, and none held of that
/// region has a newer epoch.
pub open spec fn authoritative_at(held: Seq<SnapshotView>, region_id: u64, i: int) -> bool {
    &&& 0 <= i < held.len()
    &&& held[i].local.region.id == region_id
    &&& forall|j: int|
        0 <= j < held.len() && (#[trigger] held[j]).local.region.id == region_id
            ==> !held[j].local.region.epoch.newer_than(held[i].local.region.epoch)
}

/// The snapshots held of regions other than `region_id`, in their order.
pub open spec fn others(held: Seq<SnapshotView>, region_id: u64) -> Seq<SnapshotView>
    decreases held.len(),
{
    if held.len() == 0 {
        Seq::empty()
    } else if held.last().local.region.id == region_id {
        others(held.drop_last(), region_id)
    } else {
        others(held.drop_last(), region_id).push(held.last())
    }
}

/// No snapshot of `region_id` is left among `others`, and each one there was
/// held.
pub proof fn lemma_others(held: Seq<SnapshotView>, region_id: u64)
    ensures
        !holds_region(others(held, region_id), region_id),
        others(held, region_id).len() <= held.len(),
        forall|k: int|
            0 <= k < others(held, region_id).len() ==> held.contains(
                #[trigger] others(held, region_id)[k],
            ),
        deduplicated(held) ==> deduplicated(others(held, region_id)),
    decreases held.len(),
{
    if held.len() > 0 {
        let shorter = held.drop_last();
        lemma_others(shorter, region_id);
        let kept = others(held, region_id);
        let before = others(shorter, region_id);
        assert forall|k: int| 0 <= k < kept.len() implies held.contains(#[trigger] kept[k]) by {
            if k < before.len() {
                let at = choose|at: int| 0 <= at < shorter.len() && shorter[at] == before[k];
                assert(held[at] == kept[k]);
            } else {
                assert(held[held.len() - 1] == kept[k]);
            }
        }
        if deduplicated(held) {
            lemma_others_ordered(held, region_id);
        }
    }
}

/// Where each of `others` stood before: positions that grow with the order
/// kept.
pub open spec fn kept_from(held: Seq<SnapshotView>, kept: Seq<SnapshotView>, from: Seq<int>) -> bool {
    &&& from.len() == kept.len()
    &&& forall|k: int| 0 <= k < kept.len() ==> 0 <= #[trigger] from[k] < held.len() && held[from[k]]
        == kept[k]
    &&& forall|a: int, b: int| 0 <= a < b < kept.len() ==> from[a] < from[b]
}

/// What is kept stood, in the same order, among what was held; so what was
/// deduplicated stays so.
pub proof fn lemma_others_ordered(held: Seq<SnapshotView>, region_id: u64)
    ensures
        exists|from: Seq<int>| kept_from(held, others(held, region_id), from),
        deduplicated(held) ==> deduplicated(others(held, region_id)),
    decreases held.len(),
{
    let kept = others(held, region_id);
    if held.len() == 0 {
        assert(kept_from(held, kept, Seq::<int>::empty()));
    } else {
        let shorter = held.drop_last();
        lemma_others_ordered(shorter, region_id);
        let before = others(shorter, region_id);
        let from0 = choose|from: Seq<int>| kept_from(shorter, before, from);
        let from = if held.last().local.region.id == region_id {
            from0
        } else {
            from0.push(held.len() - 1)
        };
        assert(kept_from(held, kept, from)) by {
            assert forall|k: int| 0 <= k < kept.len() implies 0 <= #[trigger] from[k] < held.len()
                && held[from[k]] == kept[k] by {
                if k < before.len() {
                    assert(shorter[from0[k]] == before[k]);
                }
            }
            assert forall|a: int, b: int| 0 <= a < b < kept.len() implies from[a] < from[b] by {
                if b < before.len() {
                    assert(from0[a] < from0[b]);
                } else {
                    assert(0 <= from0[a] < shorter.len());
                }
            }
        }
    }
    if deduplicated(held) {
        let from = choose|from: Seq<int>| kept_from(held, kept, from);
        assert forall|i: int, j: int|
            0 <= i < j < kept.len() && (#[trigger] kept[i]).local.region.id == (
            #[trigger] kept[j]).local.region.id implies kept[i].local.region.epoch
            != kept[j].local.region.epoch by {
            assert(from[i] < from[j]);
            assert(held[from[i]] == kept[i]);
            assert(held[from[j]] == kept[j]);
        }
    }
}

impl SnapshotCollector {
    /// A collector that holds nothing.
    pub fn new() -> (r: Self)
        ensures
            r@ == Seq::<SnapshotView>::empty(),
            deduplicated(r@),
    {
        let r = SnapshotCollector { pending: Vec::new() };
        assert(r@ =~= Seq::<SnapshotView>::empty());
        r
    }

    /// How many snapshots are held.
    pub fn len(&self) -> (r: usize)
        ensures
            r == self@.len(),
    {
        self.pending.len()
    }

    /// Takes a snapshot in, unless one of the same region and epoch is held
    /// already. Says whether it was taken in.
    pub fn offer(&mut self, snap: Snapshot) -> (kept: bool)
        ensures
            kept == !holds_same(old(self)@, snap@),
            final(self)@ == if kept {
                old(self)@.push(snap@)
            } else {
                old(self)@
            },
            deduplicated(old(self)@) ==> deduplicated(final(self)@),
    {
        let ghost held = self@;
        let mut i: usize = 0;
        while i < self.pending.len()
            invariant
                held == self@,
                0 <= i <= held.len(),
                forall|j: int|
                    0 <= j < i ==> !((#[trigger] held[j]).local.region.id == snap@.local.region.id
                        && held[j].local.region.epoch == snap@.local.region.epoch),
            decreases held.len() - i,
        {
            if self.pending[i].local.region.id == snap.local.region.id
                && self.pending[i].local.region.epoch == snap.local.region.epoch {
                assert(held[i as int].local.region.id == snap@.local.region.id);
                return false;
            }
            i += 1;
        }
        let ghost added = snap@;
        self.pending.push(snap);
        assert(self@ =~= held.push(added));
        true
    }

    /// How many of the snapshots held are of region `region_id`.
    pub fn pending_for(&self, region_id: u64) -> (r: usize)
        ensures
            r == self@.len() - others(self@, region_id).len(),
    {
        let ghost held = self@;
        let mut r: usize = 0;
        let mut i: usize = 0;
        assert(held.take(0) =~= Seq::<SnapshotView>::empty());
        while i < self.pending.len()
            invariant
                held == self@,
                0 <= i <= held.len(),
                r == i - others(held.take(i as int), region_id).len(),
                others(held.take(i as int), region_id).len() <= i,
            decreases held.len() - i,
        {
            proof {
                assert(held.take(i + 1).drop_last() =~= held.take(i as int));
                assert(held.take(i + 1).last() == held[i as int]);
            }
            if self.pending[i].local.region.id == region_id {
                r += 1;
            }
            i += 1;
        }
        assert(held.take(held.len() as int) =~= held);
        r
    }

    /// The snapshot of region `region_id` with the highest epoch, if one of
    /// that region is held.
    pub fn authoritative(&self, region_id: u64) -> (r: Option<&Snapshot>)
        ensures
            r is Some <==> holds_region(self@, region_id),
            r matches Some(snap) ==> exists|i: int|
                authoritative_at(self@, region_id, i) && #[trigger] self@[i] == snap@,
    {
        match self.authoritative_position(region_id) {
            Some(i) => {
                assert(self@[i as int] == self.pending[i as int]@);
                Some(&self.pending[i])
            },
            None => None,
        }
    }

    /// Where the snapshot of region `region_id` with the highest epoch
    /// stands, if one of that region is held.
    pub fn authoritative_position(&self, region_id: u64) -> (r: Option<usize>)
        ensures
            r is Some <==> holds_region(self@, region_id),
            r matches Some(i) ==> authoritative_at(self@, region_id, i as int),
    {
        let ghost held = self@;
        let mut best: Option<usize> = None;
        let mut i: usize = 0;
        while i < self.pending.len()
            invariant
                held == self@,
                0 <= i <= held.len(),
                best is None ==> forall|j: int|
                    0 <= j < i ==> (#[trigger] held[j]).local.region.id != region_id,
                best matches Some(b) ==> b < i && held[b as int].local.region.id == region_id
                    && forall|j: int|
                    0 <= j < i && (#[trigger] held[j]).local.region.id == region_id
                        ==> !held[j].local.region.epoch.newer_than(
                        held[b as int].local.region.epoch,
                    ),
            decreases held.len() - i,
        {
            if self.pending[i].local.region.id == region_id {
                let better = match best {
                    Some(b) => self.pending[i].local.region.epoch.is_newer_than(
                        &self.pending[b].local.region.epoch,
                    ),
                    None => true,
                };
                if better {
                    best = Some(i);
                }
            }
            i += 1;
        }
        proof {
            if let Some(b) = best {
                assert(held[b as int].local.region.id == region_id);
            }
        }
        best
    }

    /// Hands out the snapshot of region `region_id` with the highest epoch
    /// and drops every other snapshot of that region. Snapshots of other
    /// regions stay, in their order.
    pub fn take(&mut self, region_id: u64) -> (r: Option<Snapshot>)
        ensures
            final(self)@ == others(old(self)@, region_id),
            r is Some <==> holds_region(old(self)@, region_id),
            r matches Some(snap) ==> exists|i: int|
                authoritative_at(old(self)@, region_id, i) && #[trigger] old(self)@[i] == snap@,
            deduplicated(old(self)@) ==> deduplicated(final(self)@),
    {
        let ghost held = self@;
        let chosen = match self.authoritative(region_id) {
            Some(snap) => Some(snap.clone()),
            None => None,
        };
        let total = self.pending.len();
        let mut seen: usize = 0;
        let mut i: usize = 0;
        assert(held.take(0) =~= Seq::<SnapshotView>::empty());
        assert(held.skip(0) =~= held);
        while seen < total
            invariant
                total == held.len(),
                0 <= seen <= total,
                i <= seen,
                i == others(held.take(seen as int), region_id).len(),
                self@ == others(held.take(seen as int), region_id) + held.skip(seen as int),
            decreases total - seen,
        {
            let ghost now = self@;
            proof {
                assert(held.take(seen + 1).drop_last() =~= held.take(seen as int));
                assert(held.take(seen + 1).last() == held[seen as int]);
                assert(held.skip(seen as int).len() == total - seen);
                assert(now.len() == i + (total - seen));
                assert(self.pending@.len() == now.len());
                assert(now[i as int] == held.skip(seen as int)[0]);
                assert(self.pending@[i as int]@ == now[i as int]);
            }
            let ghost head = others(held.take(seen as int), region_id);
            if self.pending[i].local.region.id == region_id {
                self.pending.remove(i);
                proof {
                    assert(self@ =~= now.remove(i as int));
                    assert(held.skip(seen as int).skip(1) =~= held.skip(seen + 1));
                    assert(now.remove(i as int) =~= head + held.skip(seen + 1));
                    assert(others(held.take(seen + 1), region_id) == head);
                }
            } else {
                i += 1;
                proof {
                    assert(others(held.take(seen + 1), region_id) == head.push(held[seen as int]));
                    assert(now =~= head.push(held[seen as int]) + held.skip(seen + 1));
                }
            }
            seen += 1;
        }
        proof {
            assert(held.take(total as int) =~= held);
            assert(self@ =~= others(held, region_id));
            lemma_others(held, region_id);
        }
        chosen
    }
}

} // verus!
