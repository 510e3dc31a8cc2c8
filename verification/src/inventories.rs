//! The inventory store: the latest known snapshot of every location's slots,
//! a flattened view of all slots, and the deduplicating listing aggregator.

use vstd::prelude::*;
use vstd::pervasive::VecAdditionalExecFns;
use crate::geometry::{Location, Vec3};
use crate::item::{item_view, Item, ItemV};

verus! {

/// One storage container's snapshot: its slots in order, when it was
/// scanned, and the position an agent must occupy to open it.
pub struct Inventory {
    pub slots: Vec<Option<Item>>,
    pub scanned_at: i64,
    pub open_from: Vec3,
}

/// The mathematical shape of a snapshot.
#[verifier::ext_equal]
pub struct InventoryV {
    pub slots: Seq<Option<ItemV>>,
    pub scanned_at: i64,
    pub open_from: Vec3,
}

pub open spec fn slot_view(s: Option<Item>) -> Option<ItemV> {
    match s {
        Some(it) => Some(item_view(it)),
        None => None,
    }
}

pub open spec fn slot_views_of(s: Seq<Option<Item>>) -> Seq<Option<ItemV>> {
    Seq::new(
        s.len(),
        |i: int|
            if 0 <= i < s.len() {
                slot_view(s[i])
            } else {
                None
            },
    )
}

pub open spec fn inv_view(inv: Inventory) -> InventoryV {
    InventoryV {
        slots: slot_views_of(inv.slots@),
        scanned_at: inv.scanned_at,
        open_from: inv.open_from,
    }
}

/// The store: one snapshot per location, last write winning.
pub struct InventoryState {
    pub inventory_map: Vec<(Location, Inventory)>,
}

/// The shapes of the store's entries, in storage order.
pub open spec fn pairs_view(v: Seq<(Location, Inventory)>) -> Seq<(Location, InventoryV)> {
    Seq::new(
        v.len(),
        |i: int|
            if 0 <= i < v.len() {
                (v[i].0, inv_view(v[i].1))
            } else {
                arbitrary()
            },
    )
}

pub open spec fn inv_entries(s: InventoryState) -> Seq<(Location, InventoryV)> {
    pairs_view(s.inventory_map@)
}

/// Each location appears at most once.
pub open spec fn entries_wf(es: Seq<(Location, InventoryV)>) -> bool {
    forall|i: int, j: int| 0 <= i < j < es.len() ==> es[i].0 != es[j].0
}

/// The snapshot stored for a location, if any.
pub open spec fn entries_lookup(es: Seq<(Location, InventoryV)>, loc: Location) -> Option<
    InventoryV,
>
    decreases es.len(),
{
    if es.len() == 0 {
        None
    } else if es[0].0 == loc {
        Some(es[0].1)
    } else {
        entries_lookup(es.drop_first(), loc)
    }
}

/// The entries after a snapshot is stored: the location's entry is replaced
/// in place, or appended when the location is new.
pub open spec fn entries_set(
    es: Seq<(Location, InventoryV)>,
    loc: Location,
    v: InventoryV,
) -> Seq<(Location, InventoryV)>
    decreases es.len(),
{
    if es.len() == 0 {
        seq![(loc, v)]
    } else if es[0].0 == loc {
        seq![(loc, v)] + es.drop_first()
    } else {
        seq![es[0]] + entries_set(es.drop_first(), loc, v)
    }
}

/// Storing a snapshot changes what is looked up at its location and nothing
/// else: the store is last-write-wins per location.
pub proof fn lemma_set_lookup(
    es: Seq<(Location, InventoryV)>,
    loc: Location,
    v: InventoryV,
    probe: Location,
)
    ensures
        entries_lookup(entries_set(es, loc, v), probe) == if probe == loc {
            Some(v)
        } else {
            entries_lookup(es, probe)
        },
    decreases es.len(),
{
    if es.len() == 0 {
        let out = entries_set(es, loc, v);
        assert(out =~= seq![(loc, v)]);
        assert(out[0] == (loc, v));
        if probe == loc {
            assert(entries_lookup(out, probe) == Some(v));
        } else {
            assert(out.drop_first() =~= Seq::<(Location, InventoryV)>::empty());
            assert(entries_lookup(out.drop_first(), probe) is None);
            assert(entries_lookup(out, probe) is None);
            assert(entries_lookup(es, probe) is None);
        }
    } else if es[0].0 == loc {
        let out = entries_set(es, loc, v);
        assert(out[0] == (loc, v));
        assert(out.drop_first() =~= es.drop_first());
    } else {
        lemma_set_lookup(es.drop_first(), loc, v, probe);
        let out = entries_set(es, loc, v);
        assert(out[0] == es[0]);
        assert(out.drop_first() =~= entries_set(es.drop_first(), loc, v));
    }
}

/// Storing a snapshot keeps the per-location uniqueness of the store.
pub proof fn lemma_set_wf(es: Seq<(Location, InventoryV)>, loc: Location, v: InventoryV)
    requires
        entries_wf(es),
    ensures
        entries_wf(entries_set(es, loc, v)),
    decreases es.len(),
{
    if es.len() == 0 {
    } else if es[0].0 == loc {
        let out = entries_set(es, loc, v);
        assert forall|i: int, j: int| 0 <= i < j < out.len() implies out[i].0 != out[j].0 by {
            assert(out[i] == if i == 0 { (loc, v) } else { es[i] });
            assert(out[j] == es[j]);
        }
    } else {
        assert(entries_wf(es.drop_first())) by {
            assert(forall|i: int, j: int|
                0 <= i < j < es.drop_first().len() ==> es.drop_first()[i] == es[i + 1]
                    && es.drop_first()[j] == es[j + 1]);
        }
        lemma_set_wf(es.drop_first(), loc, v);
        let sub = entries_set(es.drop_first(), loc, v);
        let out = entries_set(es, loc, v);
        assert(out == seq![es[0]] + sub);
        lemma_set_keys(es.drop_first(), loc, v);
        assert forall|i: int, j: int| 0 <= i < j < out.len() implies out[i].0 != out[j].0 by {
            if i == 0 {
                assert(out[j] == sub[j - 1]);
                assert(sub[j - 1].0 == loc || exists|k: int|
                    0 <= k < es.drop_first().len() && sub[j - 1].0 == es.drop_first()[k].0);
            } else {
                assert(out[i] == sub[i - 1] && out[j] == sub[j - 1]);
            }
        }
    }
}

/// Every key of a set result is the stored key or one of the old keys.
proof fn lemma_set_keys(es: Seq<(Location, InventoryV)>, loc: Location, v: InventoryV)
    ensures
        forall|m: int|
            0 <= m < entries_set(es, loc, v).len() ==> (#[trigger] entries_set(es, loc, v)[m].0
                == loc || exists|k: int| 0 <= k < es.len() && entries_set(es, loc, v)[m].0
                == es[k].0),
    decreases es.len(),
{
    if es.len() == 0 {
    } else if es[0].0 == loc {
        let out = entries_set(es, loc, v);
        assert forall|m: int| 0 <= m < out.len() implies (out[m].0 == loc || exists|k: int|
            0 <= k < es.len() && out[m].0 == es[k].0) by {
            if m > 0 {
                assert(out[m] == es.drop_first()[m - 1]);
                assert(out[m].0 == es[m].0);
            }
        }
    } else {
        lemma_set_keys(es.drop_first(), loc, v);
        let sub = entries_set(es.drop_first(), loc, v);
        let out = entries_set(es, loc, v);
        assert forall|m: int| 0 <= m < out.len() implies (out[m].0 == loc || exists|k: int|
            0 <= k < es.len() && out[m].0 == es[k].0) by {
            if m == 0 {
                assert(out[0].0 == es[0].0);
            } else {
                assert(out[m] == sub[m - 1]);
                if sub[m - 1].0 != loc {
                    let k = choose|k: int|
                        0 <= k < es.drop_first().len() && sub[m - 1].0 == es.drop_first()[k].0;
                    assert(es.drop_first()[k].0 == es[k + 1].0);
                }
            }
        }
    }
}

/// One flattened slot: where it is, which index it has, what it holds, and
/// from where the container is opened.
pub struct SlotEntry {
    pub location: Location,
    pub slot: usize,
    pub item: Option<Item>,
    pub open_from: Vec3,
}

/// The mathematical shape of a flattened slot.
#[verifier::ext_equal]
pub struct SlotEntryV {
    pub location: Location,
    pub slot: usize,
    pub item: Option<ItemV>,
    pub open_from: Vec3,
}

pub open spec fn slot_entry_view(e: SlotEntry) -> SlotEntryV {
    SlotEntryV {
        location: e.location,
        slot: e.slot,
        item: slot_view(e.item),
        open_from: e.open_from,
    }
}

pub open spec fn slot_entry_views(s: Seq<SlotEntry>) -> Seq<SlotEntryV> {
    Seq::new(
        s.len(),
        |i: int|
            if 0 <= i < s.len() {
                slot_entry_view(s[i])
            } else {
                arbitrary()
            },
    )
}

/// The flattened slots of one stored snapshot, slot indices ascending.
pub open spec fn slots_of_entry(loc: Location, inv: InventoryV) -> Seq<SlotEntryV> {
    Seq::new(
        inv.slots.len(),
        |i: int|
            if 0 <= i < inv.slots.len() {
                SlotEntryV {
                    location: loc,
                    slot: i as usize,
                    item: inv.slots[i],
                    open_from: inv.open_from,
                }
            } else {
                arbitrary()
            },
    )
}

/// The flattened slots of the whole store: every known location, every slot
/// in it, slot indices ascending within a location. Cross-location order
/// follows storage order and carries no meaning.
pub open spec fn slots_view(es: Seq<(Location, InventoryV)>) -> Seq<SlotEntryV>
    decreases es.len(),
{
    if es.len() == 0 {
        Seq::empty()
    } else {
        slots_of_entry(es[0].0, es[0].1) + slots_view(es.drop_first())
    }
}

impl Default for InventoryState {
    /// An empty store.
    fn default() -> (r: InventoryState)
        ensures
            inv_entries(r) == Seq::<(Location, InventoryV)>::empty(),
            entries_wf(inv_entries(r)),
    {
        InventoryState::new()
    }
}

impl InventoryState {
    /// An empty store.
    pub fn new() -> (r: InventoryState)
        ensures
            inv_entries(r) == Seq::<(Location, InventoryV)>::empty(),
            entries_wf(inv_entries(r)),
    {
        let r = InventoryState { inventory_map: Vec::new() };
        proof {
            assert(inv_entries(r) =~= Seq::<(Location, InventoryV)>::empty());
        }
        r
    }

    /// Replaces any prior snapshot for the location: last write wins, no
    /// merge, no versioning.
    pub fn set_inventory_at(&mut self, location: Location, inventory: Inventory)
        ensures
            inv_entries(*final(self)) == entries_set(
                inv_entries(*old(self)),
                location,
                inv_view(inventory),
            ),
    {
        let ghost es = inv_entries(*old(self));
        let ghost v = inv_view(inventory);
        let mut i: usize = 0;
        proof {
            assert(es.skip(0) =~= es);
            assert(es.take(0) =~= Seq::<(Location, InventoryV)>::empty());
        }
        while i < self.inventory_map.len()
            invariant
                0 <= i <= self.inventory_map@.len(),
                es == inv_entries(*self),
                es == inv_entries(*old(self)),
                es.len() == self.inventory_map@.len(),
                v == inv_view(inventory),
                forall|j: int| 0 <= j < i ==> es[j].0 != location,
                entries_set(es, location, v) == es.take(i as int) + entries_set(
                    es.skip(i as int),
                    location,
                    v,
                ),
            decreases self.inventory_map@.len() - i,
        {
            proof {
                assert(es.skip(i as int)[0] == es[i as int]);
            }
            if self.inventory_map[i].0 == location {
                let ghost old_map = self.inventory_map@;
                self.inventory_map.set(i, (location, inventory));
                proof {
                    assert(es.skip(i as int).drop_first() =~= es.skip(i + 1));
                    assert(entries_set(es.skip(i as int), location, v) == seq![(location, v)]
                        + es.skip(i + 1));
                    assert(inv_entries(*self) =~= es.take(i as int) + (seq![(location, v)]
                        + es.skip(i + 1)));
                    assert(entries_set(es, location, v) == es.take(i as int) + (seq![
                        (location, v),
                    ] + es.skip(i + 1)));
                }
                return ;
            }
            proof {
                assert(es.skip(i as int).drop_first() =~= es.skip(i + 1));
                assert(entries_set(es.skip(i as int), location, v) == seq![es[i as int]]
                    + entries_set(es.skip(i + 1), location, v));
                assert(es.take(i as int) + (seq![es[i as int]] + entries_set(
                    es.skip(i + 1),
                    location,
                    v,
                )) =~= es.take(i + 1) + entries_set(es.skip(i + 1), location, v));
            }
            i += 1;
        }
        proof {
            assert(es.skip(i as int).len() == 0);
            assert(entries_set(es.skip(i as int), location, v) == seq![(location, v)]);
            assert(es.take(i as int) =~= es);
        }
        self.inventory_map.push((location, inventory));
        proof {
            assert(inv_entries(*self) =~= es + seq![(location, v)]);
            assert(es + seq![(location, v)] =~= es.take(es.len() as int) + seq![(location, v)]);
        }
    }

    /// The current snapshot for a location, or nothing for an unknown one.
    pub fn inventory_contents_at(&self, location: &Location) -> (r: Option<&Inventory>)
        ensures
            match r {
                Some(inv) => entries_lookup(inv_entries(*self), *location) == Some(
                    inv_view(*inv),
                ),
                None => entries_lookup(inv_entries(*self), *location) is None,
            },
    {
        let ghost es = inv_entries(*self);
        proof {
            assert(es.skip(0) =~= es);
        }
        let mut i: usize = 0;
        while i < self.inventory_map.len()
            invariant
                0 <= i <= self.inventory_map@.len(),
                es == inv_entries(*self),
                es.len() == self.inventory_map@.len(),
                entries_lookup(es, *location) == entries_lookup(es.skip(i as int), *location),
            decreases self.inventory_map@.len() - i,
        {
            proof {
                assert(es.skip(i as int)[0] == es[i as int]);
            }
            if self.inventory_map[i].0 == *location {
                return Some(&self.inventory_map[i].1);
            }
            proof {
                assert(es.skip(i as int).drop_first() =~= es.skip(i + 1));
            }
            i += 1;
        }
        proof {
            assert(es.skip(i as int).len() == 0);
        }
        None
    }

    /// The stored (location, snapshot) pairs, in storage order.
    pub fn iter_inventories(&self) -> (r: &Vec<(Location, Inventory)>)
        ensures
            pairs_view(r@) == inv_entries(*self),
    {
        &self.inventory_map
    }

    /// A fresh flattened pass over every known location and every slot in
    /// it; the sequence is recomputed per call.
    pub fn iter_slots(&self) -> (r: Vec<SlotEntry>)
        ensures
            slot_entry_views(r@) == slots_view(inv_entries(*self)),
    {
        let ghost es = inv_entries(*self);
        let mut out: Vec<SlotEntry> = Vec::new();
        proof {
            assert(es.skip(0) =~= es);
            assert(slot_entry_views(out@) =~= Seq::<SlotEntryV>::empty());
        }
        let mut i: usize = 0;
        while i < self.inventory_map.len()
            invariant
                0 <= i <= self.inventory_map@.len(),
                es == inv_entries(*self),
                es.len() == self.inventory_map@.len(),
                slots_view(es) == slot_entry_views(out@) + slots_view(es.skip(i as int)),
            decreases self.inventory_map@.len() - i,
        {
            let ghost block = slots_of_entry(es[i as int].0, es[i as int].1);
            proof {
                assert(es.skip(i as int)[0] == es[i as int]);
                assert(es.skip(i as int).drop_first() =~= es.skip(i + 1));
                assert(slots_view(es.skip(i as int)) == block + slots_view(es.skip(i + 1)));
            }
            let loc = self.inventory_map[i].0;
            let open_from = self.inventory_map[i].1.open_from;
            let n = self.inventory_map[i].1.slots.len();
            let mut j: usize = 0;
            while j < n
                invariant
                    0 <= j <= n,
                    0 <= i < self.inventory_map@.len(),
                    es == inv_entries(*self),
                    es.len() == self.inventory_map@.len(),
                    block == slots_of_entry(es[i as int].0, es[i as int].1),
                    loc == es[i as int].0,
                    open_from == es[i as int].1.open_from,
                    n == es[i as int].1.slots.len(),
                    block.len() == n,
                    slots_view(es) == slot_entry_views(out@) + block.skip(j as int)
                        + slots_view(es.skip(i + 1)),
                decreases n - j,
            {
                let item: Option<Item> = match &self.inventory_map[i].1.slots[j] {
                    Some(it) => Some(it.deep_clone()),
                    None => None,
                };
                let entry = SlotEntry { location: loc, slot: j, item, open_from };
                let ghost old_views = slot_entry_views(out@);
                proof {
                    assert(slot_entry_view(entry) == block[j as int]);
                    assert(block.skip(j as int)[0] == block[j as int]);
                }
                out.push(entry);
                proof {
                    assert(slot_entry_views(out@) =~= old_views.push(block[j as int]));
                    assert(block.skip(j as int).drop_first() =~= block.skip(j + 1));
                    assert(old_views + block.skip(j as int) + slots_view(es.skip(i + 1))
                        =~= old_views.push(block[j as int]) + block.skip(j + 1) + slots_view(
                        es.skip(i + 1),
                    ));
                }
                j += 1;
            }
            proof {
                assert(block.skip(j as int).len() == 0);
                assert(slot_entry_views(out@) + block.skip(j as int) + slots_view(es.skip(i + 1))
                    =~= slot_entry_views(out@) + slots_view(es.skip(i + 1)));
            }
            i += 1;
        }
        proof {
            assert(es.skip(i as int).len() == 0);
            assert(slot_entry_views(out@) + Seq::<SlotEntryV>::empty() =~= slot_entry_views(
                out@,
            ));
        }
        out
    }
}

/// Storing twice at one location keeps only the later snapshot: the store,
/// and with it every flattened pass, reflects the latest write per location
/// and never a merge of old and new.
pub proof fn lemma_last_write_wins(
    es: Seq<(Location, InventoryV)>,
    loc: Location,
    v1: InventoryV,
    v2: InventoryV,
)
    ensures
        entries_set(entries_set(es, loc, v1), loc, v2) == entries_set(es, loc, v2),
    decreases es.len(),
{
    if es.len() == 0 {
        let once = entries_set(es, loc, v1);
        assert(once[0] == (loc, v1));
        assert(once.drop_first() =~= Seq::<(Location, InventoryV)>::empty());
        assert(entries_set(once, loc, v2) == seq![(loc, v2)] + once.drop_first());
        assert(seq![(loc, v2)] + once.drop_first() =~= seq![(loc, v2)]);
    } else if es[0].0 == loc {
        let once = entries_set(es, loc, v1);
        assert(once[0] == (loc, v1));
        assert(once.drop_first() =~= es.drop_first());
        assert(entries_set(once, loc, v2) == seq![(loc, v2)] + es.drop_first());
    } else {
        lemma_last_write_wins(es.drop_first(), loc, v1, v2);
        let once = entries_set(es, loc, v1);
        assert(once[0] == es[0]);
        assert(once.drop_first() =~= entries_set(es.drop_first(), loc, v1));
        assert(entries_set(once, loc, v2) == seq![es[0]] + entries_set(
            entries_set(es.drop_first(), loc, v1),
            loc,
            v2,
        ));
    }
}

} // verus!
