//! The capacity/eviction planner: given the client's stored loadouts and the
//! slot limit, decide which managed loadouts to purge, whether the oldest
//! remaining one must be evicted, and how many slots provisioning may fill.
//! The plan always leaves at least one slot available.

use vstd::prelude::*;
use crate::loadout::Loadout;
use crate::loadout::is_managed_name;
use crate::loadout::name_has_marker;

verus! {

/// Why no capacity plan exists.
#[derive(Clone, Copy, Debug, PartialEq, Eq, Structural)]
pub enum CapacityError {
    /// The slot limit is zero and nothing deletable remains to evict.
    NoSlotFree,
}

/// What the capacity pass decided.
#[derive(Debug)]
pub struct CapacityPlan {
    /// Ids of deletable loadouts bearing the managed marker: purged first.
    pub purge_ids: Vec<u64>,
    /// The oldest remaining deletable loadout, evicted when the purge leaves
    /// no free slot.
    pub evict_id: Option<u64>,
    /// Slots available for provisioning afterwards.
    pub available: usize,
}

/// A loadout the purge removes: deletable and marked as managed.
pub open spec fn is_purged(l: Loadout) -> bool {
    l.is_deletable && is_managed_name(l.name@)
}

/// A loadout that stays in the working set: deletable but not managed.
pub open spec fn is_kept(l: Loadout) -> bool {
    l.is_deletable && !is_managed_name(l.name@)
}

/// The ids of the purged loadouts, in order.
pub open spec fn purge_list(s: Seq<Loadout>) -> Seq<u64>
    decreases s.len(),
{
    if s.len() == 0 {
        Seq::empty()
    } else {
        purge_list(s.drop_last()) + (if is_purged(s.last()) {
            seq![s.last().id]
        } else {
            Seq::empty()
        })
    }
}

/// The working set after the purge, in order.
pub open spec fn kept_list(s: Seq<Loadout>) -> Seq<Loadout>
    decreases s.len(),
{
    if s.len() == 0 {
        Seq::empty()
    } else {
        kept_list(s.drop_last()) + (if is_kept(s.last()) {
            seq![s.last()]
        } else {
            Seq::empty()
        })
    }
}

/// Position `i` holds the first loadout with the minimal last-modified time.
pub open spec fn first_oldest(s: Seq<Loadout>, i: int) -> bool {
    &&& 0 <= i < s.len()
    &&& forall|j: int| 0 <= j < s.len() ==> (#[trigger] s[j]).last_modified >= s[i].last_modified
    &&& forall|j: int| 0 <= j < i ==> (#[trigger] s[j]).last_modified > s[i].last_modified
}

/// Plan the capacity pass. The working set is the deletable, unmanaged part
/// of `pages`; managed deletable loadouts are purged. When the limit leaves
/// no slot free, the first-oldest of the working set is evicted and exactly
/// one slot becomes available; failing that, the limit itself was zero.
#[verifier::loop_isolation(false)]
pub fn plan_capacity(pages: Vec<Loadout>, max_slots: usize) -> (r: Result<
    CapacityPlan,
    CapacityError,
>)
    requires
        kept_list(pages@).len() <= max_slots,
    ensures
        r is Err <==> max_slots == 0,
        r is Ok ==> ({
            let plan = r->Ok_0;
            &&& plan.purge_ids@ == purge_list(pages@)
            &&& plan.available >= 1
            &&& (kept_list(pages@).len() < max_slots ==> plan.available == max_slots - kept_list(
                pages@,
            ).len() && plan.evict_id is None)
            &&& (kept_list(pages@).len() == max_slots ==> plan.available == 1 && (exists|i: int|
                #[trigger] first_oldest(kept_list(pages@), i) && plan.evict_id == Some(
                    kept_list(pages@)[i].id,
                )))
        }),
{
    let ghost orig = pages@;
    let mut pages = pages;
    let mut purge_ids: Vec<u64> = Vec::new();
    let mut kept: Vec<Loadout> = Vec::new();
    while pages.len() > 0
        invariant
            orig.skip(orig.len() - pages@.len()) =~= pages@,
            pages@.len() <= orig.len(),
            purge_ids@ == purge_list(orig.take(orig.len() - pages@.len())),
            kept@ == kept_list(orig.take(orig.len() - pages@.len())),
        decreases pages@.len(),
    {
        let ghost k = orig.len() - pages@.len();
        let p = pages.remove(0);
        proof {
            assert(p == orig[k]);
            assert(orig.skip(orig.len() - pages@.len()) =~= pages@);
            assert(orig.take(k + 1).drop_last() =~= orig.take(k));
            assert(orig.take(k + 1).last() == orig[k]);
        }
        if p.is_deletable {
            if name_has_marker(p.name.as_str()) {
                purge_ids.push(p.id);
                proof {
                    assert(purge_ids@ =~= purge_list(orig.take(k + 1)));
                    assert(kept@ =~= kept_list(orig.take(k + 1)));
                }
            } else {
                kept.push(p);
                proof {
                    assert(purge_ids@ =~= purge_list(orig.take(k + 1)));
                    assert(kept@ =~= kept_list(orig.take(k + 1)));
                }
            }
        } else {
            proof {
                assert(purge_ids@ =~= purge_list(orig.take(k + 1)));
                assert(kept@ =~= kept_list(orig.take(k + 1)));
            }
        }
    }
    proof {
        assert(orig.take(orig.len() as int) =~= orig);
    }
    if kept.len() < max_slots {
        let available = max_slots - kept.len();
        return Ok(CapacityPlan { purge_ids, evict_id: None, available });
    }
    // The purge left no free slot: evict the first-oldest kept loadout.
    if kept.len() == 0 {
        return Err(CapacityError::NoSlotFree);
    }
    let mut best: usize = 0;
    let mut i: usize = 1;
    while i < kept.len()
        invariant
            best < i <= kept@.len(),
            forall|j: int|
                0 <= j < i ==> (#[trigger] kept@[j]).last_modified
                    >= kept@[best as int].last_modified,
            forall|j: int|
                0 <= j < best ==> (#[trigger] kept@[j]).last_modified
                    > kept@[best as int].last_modified,
        decreases kept@.len() - i,
    {
        if kept[i].last_modified < kept[best].last_modified {
            best = i;
        }
        i = i + 1;
    }
    proof {
        assert(first_oldest(kept@, best as int));
    }
    Ok(CapacityPlan { purge_ids, evict_id: Some(kept[best].id), available: 1 })
}

} // verus!
