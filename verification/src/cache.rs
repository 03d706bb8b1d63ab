//! The price cache: one slot per realm, holding the realm's latest valuation
//! snapshot.
//!
//! Slots are created once, before the refresh loop starts, and values are
//! replaced thereafter — never removed, never edited in place. A snapshot is
//! a timestamp paired with a shared list of item values; an update replaces a
//! slot's whole pair at once, so a reader never sees the timestamp of one
//! update next to the values of another. The ghost set `published` records
//! every pair the cache ever installed, and well-formedness pins each slot to
//! one of them.

use std::sync::Arc;
use vstd::prelude::*;

use crate::topology::RealmInfo;
use crate::valuation::{ItemValue, TradeableItem};

verus! {

/// The latest valuation published for a realm: when upstream last reported an
/// update (epoch milliseconds; 0 means "never updated"), and the computed item
/// values, sorted by descending value. The value list is shared by every
/// realm of a connected-realm group and replaced wholesale on update, so a
/// holder of the reference keeps a consistent snapshot.
#[derive(Debug)]
pub struct RealmValuation {
    pub last_update: u64,
    pub auction_values: Arc<Vec<ItemValue>>,
}

/// The two fields a reader observes together.
pub open spec fn snapshot_of(v: RealmValuation) -> (u64, Seq<ItemValue>) {
    (v.last_update, v.auction_values@)
}

/// The value list every slot starts with: an explicit zero per catalog item.
pub open spec fn initial_values(items: Seq<TradeableItem>) -> Seq<ItemValue> {
    items.map_values(|it: TradeableItem| ItemValue { id: it.id, value: 0u64 })
}

/// `slug` names one of the group's members.
pub open spec fn in_group(group: Seq<String>, slug: Seq<char>) -> bool {
    exists|g: int| 0 <= g < group.len() && (#[trigger] group[g])@ == slug
}

/// Some slot carries `slug`.
pub open spec fn slot_for(slots: Seq<(String, RealmValuation)>, slug: Seq<char>) -> bool {
    exists|i: int| 0 <= i < slots.len() && (#[trigger] slots[i]).0@ == slug
}

/// Every member of the group has a slot.
pub open spec fn covers_group(slots: Seq<(String, RealmValuation)>, group: Seq<String>) -> bool {
    forall|g: int| 0 <= g < group.len() ==> slot_for(slots, (#[trigger] group[g])@)
}

/// Relies on `Arc::clone`: the returned reference carries the same value as
/// the one cloned.
#[verifier::external_body]
fn arc_clone(v: &Arc<Vec<ItemValue>>) -> (r: Arc<Vec<ItemValue>>)
    ensures
        r == *v,
{
    Arc::clone(v)
}

/// The cache: realm slug to current valuation slot. Entries are added only at
/// construction; the refresh loop replaces values and never meets a missing
/// slot.
pub struct PriceCache {
    slots: Vec<(String, RealmValuation)>,
    published: Ghost<Set<(u64, Seq<ItemValue>)>>,
}

impl PriceCache {
    /// The slots, in creation order.
    pub closed spec fn slots(&self) -> Seq<(String, RealmValuation)> {
        self.slots@
    }

    /// Every snapshot this cache ever installed, the initial one included.
    pub closed spec fn published(&self) -> Set<(u64, Seq<ItemValue>)> {
        self.published@
    }

    /// Slugs are distinct, and every slot holds a pair that was published
    /// whole: a reader never observes the timestamp of one update with the
    /// values of another.
    pub closed spec fn wf(&self) -> bool {
        &&& forall|i: int, j: int|
            0 <= i < j < self.slots@.len() ==> (#[trigger] self.slots@[i]).0@ != (
            #[trigger] self.slots@[j]).0@
        &&& forall|i: int|
            0 <= i < self.slots@.len() ==> self.published@.contains(
                snapshot_of((#[trigger] self.slots@[i]).1),
            )
    }

    /// Creates the cache with one slot per realm, each holding the
    /// never-updated snapshot: timestamp 0 and a zero value for every catalog
    /// item, so pages can render before the first refresh finishes.
    pub fn new(realms: &Vec<RealmInfo>, items: &Vec<TradeableItem>) -> (c: PriceCache)
        requires
            forall|i: int, j: int|
                0 <= i < j < realms@.len() ==> (#[trigger] realms@[i]).slug@ != (
                #[trigger] realms@[j]).slug@,
        ensures
            c.wf(),
            c.slots().len() == realms@.len(),
            forall|i: int|
                0 <= i < realms@.len() ==> (#[trigger] c.slots()[i]).0@ == realms@[i].slug@
                    && snapshot_of(c.slots()[i].1) == (0u64, initial_values(items@)),
            c.published() == Set::<(u64, Seq<ItemValue>)>::empty().insert(
                (0u64, initial_values(items@)),
            ),
    {
        let mut zeros: Vec<ItemValue> = Vec::new();
        let mut k: usize = 0;
        while k < items.len()
            invariant
                0 <= k <= items@.len(),
                zeros@.len() == k,
                forall|m: int|
                    0 <= m < k ==> (#[trigger] zeros@[m]) == (ItemValue {
                        id: items@[m].id,
                        value: 0u64,
                    }),
            decreases items@.len() - k,
        {
            zeros.push(ItemValue { id: items[k].id, value: 0 });
            k = k + 1;
        }
        proof {
            assert(zeros@ =~= initial_values(items@));
        }
        let shared = Arc::new(zeros);
        let mut slots: Vec<(String, RealmValuation)> = Vec::new();
        let mut i: usize = 0;
        while i < realms.len()
            invariant
                0 <= i <= realms@.len(),
                shared@ == initial_values(items@),
                forall|a: int, b: int|
                    0 <= a < b < realms@.len() ==> (#[trigger] realms@[a]).slug@ != (
                    #[trigger] realms@[b]).slug@,
                slots@.len() == i,
                forall|m: int|
                    0 <= m < i ==> (#[trigger] slots@[m]).0@ == realms@[m].slug@ && snapshot_of(
                        slots@[m].1,
                    ) == (0u64, initial_values(items@)),
            decreases realms@.len() - i,
        {
            let slug = realms[i].slug.clone();
            let value = RealmValuation { last_update: 0, auction_values: arc_clone(&shared) };
            slots.push((slug, value));
            i = i + 1;
        }
        let c = PriceCache {
            slots,
            published: Ghost(
                Set::<(u64, Seq<ItemValue>)>::empty().insert((0u64, initial_values(items@))),
            ),
        };
        c
    }

    /// Read-only lookup of a realm's current snapshot, or nothing for an
    /// unknown realm. What comes back was published whole by one update (or
    /// is the initial snapshot) and stays consistent without further locking.
    pub fn get(&self, slug: &String) -> (r: Option<&RealmValuation>)
        requires
            self.wf(),
        ensures
            match r {
                Some(v) => (exists|i: int|
                    0 <= i < self.slots().len() && (#[trigger] self.slots()[i]).0@ == slug@
                        && self.slots()[i].1 == *v) && self.published().contains(snapshot_of(*v)),
                None => forall|i: int|
                    0 <= i < self.slots().len() ==> (#[trigger] self.slots()[i]).0@ != slug@,
            },
    {
        let mut i: usize = 0;
        while i < self.slots.len()
            invariant
                0 <= i <= self.slots@.len(),
                self.wf(),
                forall|m: int| 0 <= m < i ==> (#[trigger] self.slots@[m]).0@ != slug@,
            decreases self.slots@.len() - i,
        {
            if self.slots[i].0 == *slug {
                proof {
                    assert((#[trigger] self.slots()[i as int]).0@ == slug@);
                }
                return Some(&self.slots[i].1);
            }
            i = i + 1;
        }
        None
    }

    /// Publishes one group's freshly computed valuation: every member realm's
    /// slot is replaced by the same timestamp-and-values pair, installed as
    /// one value; every other slot is untouched. Callers must have created a
    /// slot for every member (the cache never learns new realms).
    pub fn update_group(
        &mut self,
        group: &Vec<String>,
        last_update: u64,
        values: &Arc<Vec<ItemValue>>,
    )
        requires
            old(self).wf(),
            covers_group(old(self).slots(), group@),
        ensures
            final(self).wf(),
            final(self).published() == old(self).published().insert((last_update, values@)),
            final(self).slots().len() == old(self).slots().len(),
            (forall|i: int|
                0 <= i < old(self).slots().len() ==> {
                    let before = old(self).slots()[i];
                    let after = #[trigger] final(self).slots()[i];
                    &&& after.0 == before.0
                    &&& (in_group(group@, before.0@) ==> snapshot_of(after.1) == (
                    last_update,
                    values@,
                    ))
                    &&& (!in_group(group@, before.0@) ==> after.1 == before.1)
                }),
    {
        proof {
            self.published@ = self.published@.insert((last_update, values@));
        }
        let ghost orig: Seq<(String, RealmValuation)> = self.slots@;
        let ghost pubs: Set<(u64, Seq<ItemValue>)> = self.published@;
        let n = self.slots.len();
        let mut i: usize = 0;
        while i < n
            invariant
                0 <= i <= orig.len(),
                n == orig.len(),
                self.slots@.len() == orig.len(),
                self.published@ == pubs,
                pubs == old(self).published@.insert((last_update, values@)),
                values@ == (*values)@,
                forall|a: int, b: int|
                    0 <= a < b < orig.len() ==> (#[trigger] orig[a]).0@ != (#[trigger] orig[b]).0@,
                forall|m: int| 0 <= m < orig.len() ==> pubs.contains(snapshot_of((#[trigger] orig[m]).1)),
                forall|m: int|
                    0 <= m < orig.len() ==> {
                        let before = orig[m];
                        let after = #[trigger] self.slots@[m];
                        &&& after.0 == before.0
                        &&& (m >= i ==> after == before)
                        &&& (m < i && in_group(group@, before.0@) ==> snapshot_of(after.1) == (
                        last_update,
                        values@,
                        ))
                        &&& (m < i && !in_group(group@, before.0@) ==> after.1 == before.1)
                    },
            decreases orig.len() - i,
        {
            let member = group_contains(group, &self.slots[i].0);
            if member {
                let slug = self.slots[i].0.clone();
                let fresh = RealmValuation {
                    last_update,
                    auction_values: arc_clone(values),
                };
                self.slots.set(i, (slug, fresh));
            }
            i = i + 1;
        }
        proof {
            assert forall|a: int, b: int|
                0 <= a < b < self.slots@.len() implies (#[trigger] self.slots@[a]).0@ != (
            #[trigger] self.slots@[b]).0@ by {
                assert(self.slots@[a].0 == orig[a].0);
                assert(self.slots@[b].0 == orig[b].0);
            }
        }
    }
}

/// Whether `slug` is one of the group's member realms.
fn group_contains(group: &Vec<String>, slug: &String) -> (r: bool)
    ensures
        r == in_group(group@, slug@),
{
    let mut g: usize = 0;
    while g < group.len()
        invariant
            0 <= g <= group@.len(),
            forall|m: int| 0 <= m < g ==> (#[trigger] group@[m])@ != slug@,
        decreases group@.len() - g,
    {
        if group[g] == *slug {
            return true;
        }
        g = g + 1;
    }
    false
}

} // verus!
