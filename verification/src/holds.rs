//! Exclusive claims on storage slots: the hold store, whose check-then-create
//! step is one indivisible call, and the matcher that resolves declarative
//! requests into holds.

use vstd::prelude::*;
use crate::geometry::{Location, Vec3};
use crate::inventories::{entries_wf, inv_entries, slot_entry_views, slots_view, InventoryState, SlotEntryV};
use crate::item::ItemMatchCriteria;

verus! {

/// An exclusive claim on one (location, slot) pair, carrying the position an
/// agent must occupy to act on it.
#[derive(Clone, Copy, PartialEq, Eq, Debug, Structural)]
pub struct Hold {
    pub location: Location,
    pub slot: u32,
    pub open_from: Vec3,
}

/// The slot is already claimed.
#[derive(Clone, Copy, PartialEq, Eq, Debug, Structural)]
pub struct AlreadyHeldError;

/// The live holds. At most one hold exists per (location, slot) at any
/// instant; `create` checks and claims in one indivisible call, so callers
/// that serialize calls to the store (one critical section around it) get
/// exclusivity under concurrency.
pub struct HoldStore {
    pub holds: Vec<Hold>,
}

/// Whether some live hold claims this (location, slot).
pub open spec fn holds_has(hs: Seq<Hold>, location: Location, slot: u32) -> bool {
    exists|i: int| 0 <= i < hs.len() && hs[i].location == location && hs[i].slot == slot
}

/// The live hold on this (location, slot), if any.
pub open spec fn hold_at(hs: Seq<Hold>, location: Location, slot: u32) -> Option<Hold>
    decreases hs.len(),
{
    if hs.len() == 0 {
        None
    } else if hs[0].location == location && hs[0].slot == slot {
        Some(hs[0])
    } else {
        hold_at(hs.drop_first(), location, slot)
    }
}

/// No two live holds claim the same (location, slot).
pub open spec fn holds_wf(hs: Seq<Hold>) -> bool {
    forall|i: int, j: int|
        0 <= i < j < hs.len() ==> !(hs[i].location == hs[j].location && hs[i].slot
            == hs[j].slot)
}

pub proof fn lemma_hold_at_has(hs: Seq<Hold>, location: Location, slot: u32)
    ensures
        hold_at(hs, location, slot) is Some <==> holds_has(hs, location, slot),
        hold_at(hs, location, slot) matches Some(h) ==> h.location == location && h.slot == slot,
    decreases hs.len(),
{
    if hs.len() == 0 {
    } else if hs[0].location == location && hs[0].slot == slot {
        assert(holds_has(hs, location, slot)) by {
            assert(hs[0].location == location && hs[0].slot == slot);
        }
    } else {
        lemma_hold_at_has(hs.drop_first(), location, slot);
        if holds_has(hs, location, slot) {
            let i = choose|i: int|
                0 <= i < hs.len() && hs[i].location == location && hs[i].slot == slot;
            assert(hs.drop_first()[i - 1] == hs[i]);
            assert(holds_has(hs.drop_first(), location, slot));
        }
        if holds_has(hs.drop_first(), location, slot) {
            let i = choose|i: int|
                0 <= i < hs.drop_first().len() && hs.drop_first()[i].location == location
                    && hs.drop_first()[i].slot == slot;
            assert(hs[i + 1] == hs.drop_first()[i]);
            assert(holds_has(hs, location, slot));
        }
    }
}

/// After a hold is created on a free slot, that slot reports as held: the
/// sequential content of slot exclusivity under the store's critical section.
pub proof fn lemma_hold_exclusive(hs: Seq<Hold>, location: Location, slot: u32, open_from: Vec3)
    requires
        !holds_has(hs, location, slot),
    ensures
        holds_has(hs.push(Hold { location, slot, open_from }), location, slot),
        holds_wf(hs) ==> holds_wf(hs.push(Hold { location, slot, open_from })),
{
    let h = Hold { location, slot, open_from };
    let p = hs.push(h);
    assert(p[hs.len() as int] == h);
    if holds_wf(hs) {
        assert forall|i: int, j: int| 0 <= i < j < p.len() implies !(p[i].location
            == p[j].location && p[i].slot == p[j].slot) by {
            if j == hs.len() {
                assert(p[i] == hs[i]);
                if p[i].location == location && p[i].slot == slot {
                    assert(holds_has(hs, location, slot));
                }
            } else {
                assert(p[i] == hs[i] && p[j] == hs[j]);
            }
        }
    }
}

impl HoldStore {
    /// An empty store.
    pub fn new() -> (r: HoldStore)
        ensures
            r.holds@ == Seq::<Hold>::empty(),
    {
        HoldStore { holds: Vec::new() }
    }

    /// The live hold on this (location, slot), if any.
    pub fn existing_hold(&self, location: Location, slot: u32) -> (r: Option<&Hold>)
        ensures
            match r {
                Some(h) => hold_at(self.holds@, location, slot) == Some(*h),
                None => hold_at(self.holds@, location, slot) is None,
            },
    {
        let ghost hs = self.holds@;
        proof {
            assert(hs.skip(0) =~= hs);
        }
        let mut i: usize = 0;
        while i < self.holds.len()
            invariant
                0 <= i <= self.holds@.len(),
                hs == self.holds@,
                hold_at(hs, location, slot) == hold_at(hs.skip(i as int), location, slot),
            decreases self.holds@.len() - i,
        {
            proof {
                assert(hs.skip(i as int)[0] == hs[i as int]);
            }
            if self.holds[i].location == location && self.holds[i].slot == slot {
                return Some(&self.holds[i]);
            }
            proof {
                assert(hs.skip(i as int).drop_first() =~= hs.skip(i + 1));
            }
            i += 1;
        }
        proof {
            assert(hs.skip(i as int).len() == 0);
        }
        None
    }

    /// Checks and claims in one indivisible call: fails if the slot is
    /// already held, otherwise records and returns the new hold. No caller
    /// can observe a window between the check and the claim.
    pub fn create(&mut self, location: Location, slot: u32, open_from: Vec3) -> (r: Result<
        Hold,
        AlreadyHeldError,
    >)
        ensures
            hold_at(old(self).holds@, location, slot) is Some ==> r is Err && final(self).holds@ == old(self).holds@,
            hold_at(old(self).holds@, location, slot) is None ==> r == Ok::<
                Hold,
                AlreadyHeldError,
            >(Hold { location, slot, open_from }) && final(self).holds@ == old(self).holds@.push(Hold { location, slot, open_from }),
            holds_wf(old(self).holds@) ==> holds_wf(final(self).holds@),
    {
        match self.existing_hold(location, slot) {
            Some(_) => Err(AlreadyHeldError),
            None => {
                let h = Hold { location, slot, open_from };
                proof {
                    lemma_hold_at_has(self.holds@, location, slot);
                    lemma_hold_exclusive(self.holds@, location, slot, open_from);
                }
                self.holds.push(h);
                Ok(h)
            },
        }
    }
}

/// The shared state a match attempt works against: the inventory store to
/// read, the hold store to claim from.
pub struct State {
    pub inventories: InventoryState,
    pub holds: HoldStore,
}

/// Why a match attempt failed; both are expected, recoverable outcomes.
#[derive(Clone, Copy, PartialEq, Eq, Debug, Structural)]
pub enum HoldMatchError {
    /// The slot at the requested position was already held.
    AlreadyHeld,
    /// No candidate slot or item satisfied the request.
    NoMatch,
}

/// A declarative request for holds.
pub enum HoldRequestFilter {
    /// Any one slot with no item and no existing hold.
    EmptySlot,
    /// Enough unheld stacks of matching items to cover `total` units.
    ItemMatch { match_criteria: ItemMatchCriteria, total: u64 },
    /// One specific, named slot.
    SlotLocation { location: Location, slot: u32, open_from: Vec3 },
}

/// The hold that claims a flattened slot.
pub open spec fn hold_of(e: SlotEntryV) -> Hold {
    Hold { location: e.location, slot: e.slot as u32, open_from: e.open_from }
}

/// The first slot, in enumeration order, with no item and no existing hold.
pub open spec fn spec_first_empty(slots: Seq<SlotEntryV>, hs: Seq<Hold>) -> Option<SlotEntryV>
    decreases slots.len(),
{
    if slots.len() == 0 {
        None
    } else if slots[0].item is None && !holds_has(hs, slots[0].location, slots[0].slot as u32) {
        Some(slots[0])
    } else {
        spec_first_empty(slots.drop_first(), hs)
    }
}

/// One claimable stack: where it sits, how much it offers, and how to reach
/// it.
#[derive(Clone, Copy, PartialEq, Eq, Debug, Structural)]
pub struct Candidate {
    pub location: Location,
    pub slot: usize,
    pub count: u32,
    pub open_from: Vec3,
}

pub open spec fn cand_of(e: SlotEntryV) -> Candidate {
    Candidate {
        location: e.location,
        slot: e.slot,
        count: e.item->Some_0.count,
        open_from: e.open_from,
    }
}

/// The hold that claims a candidate's slot.
pub open spec fn hold_of_cand(c: Candidate) -> Hold {
    Hold { location: c.location, slot: c.slot as u32, open_from: c.open_from }
}

pub open spec fn holds_of(s: Seq<Candidate>) -> Seq<Hold> {
    Seq::new(
        s.len(),
        |i: int|
            if 0 <= i < s.len() {
                hold_of_cand(s[i])
            } else {
                arbitrary()
            },
    )
}

/// The unheld slots whose item satisfies the criteria, in enumeration order.
pub open spec fn spec_candidates(
    slots: Seq<SlotEntryV>,
    hs: Seq<Hold>,
    c: ItemMatchCriteria,
) -> Seq<Candidate>
    decreases slots.len(),
{
    if slots.len() == 0 {
        Seq::empty()
    } else {
        let rest = spec_candidates(slots.drop_first(), hs, c);
        if is_candidate(slots[0], hs, c) {
            seq![cand_of(slots[0])] + rest
        } else {
            rest
        }
    }
}

pub open spec fn is_candidate(e: SlotEntryV, hs: Seq<Hold>, c: ItemMatchCriteria) -> bool {
    match e.item {
        Some(it) => c.spec_matches_item(it) && !holds_has(hs, e.location, e.slot as u32),
        None => false,
    }
}

/// Insertion behind every at-least-as-large candidate: a stable descending
/// order, ties keeping encounter order.
pub open spec fn insert_desc(x: Candidate, s: Seq<Candidate>) -> Seq<Candidate>
    decreases s.len(),
{
    if s.len() == 0 {
        seq![x]
    } else if x.count > s[0].count {
        seq![x] + s
    } else {
        seq![s[0]] + insert_desc(x, s.drop_first())
    }
}

/// The candidates sorted by count, largest first, encounter order breaking
/// ties.
pub open spec fn sort_desc(s: Seq<Candidate>) -> Seq<Candidate>
    decreases s.len(),
{
    if s.len() == 0 {
        Seq::empty()
    } else {
        insert_desc(s.last(), sort_desc(s.drop_last()))
    }
}

/// How many sorted candidates greedy claiming takes: a claim is made, what it
/// offers is deducted, and claiming stops once the request is covered or
/// candidates run out.
pub open spec fn greedy_len(s: Seq<Candidate>, remaining: int) -> int
    decreases s.len(),
{
    if s.len() == 0 {
        0
    } else {
        let rem2 = remaining - s[0].count;
        if rem2 <= 0 {
            1
        } else {
            1 + greedy_len(s.drop_first(), rem2)
        }
    }
}

/// No two candidates share a (location, slot) key.
pub open spec fn cands_distinct(s: Seq<Candidate>) -> bool {
    forall|i: int, j: int|
        0 <= i < j < s.len() ==> !(s[i].location == s[j].location && s[i].slot as u32 == s[j].slot
            as u32)
}

/// No two flattened slots share a (location, slot) key.
pub open spec fn slots_distinct(s: Seq<SlotEntryV>) -> bool {
    forall|i: int, j: int|
        0 <= i < j < s.len() ==> !(s[i].location == s[j].location && s[i].slot as u32 == s[j].slot
            as u32)
}

/// Every stored snapshot has a slot count a hold's index field can carry.
pub open spec fn slots_bounded(es: Seq<(Location, crate::inventories::InventoryV)>) -> bool {
    forall|k: int| 0 <= k < es.len() ==> #[trigger] es[k].1.slots.len() <= u32::MAX
}

/// Every flattened slot's location is one of the stored locations.
proof fn lemma_slots_locs(es: Seq<(Location, crate::inventories::InventoryV)>)
    ensures
        forall|i: int|
            0 <= i < slots_view(es).len() ==> exists|k: int|
                0 <= k < es.len() && #[trigger] slots_view(es)[i].location == es[k].0,
    decreases es.len(),
{
    if es.len() == 0 {
    } else {
        lemma_slots_locs(es.drop_first());
        let block = crate::inventories::slots_of_entry(es[0].0, es[0].1);
        let rest = slots_view(es.drop_first());
        assert(slots_view(es) == block + rest);
        assert forall|i: int| 0 <= i < slots_view(es).len() implies exists|k: int|
            0 <= k < es.len() && #[trigger] slots_view(es)[i].location == es[k].0 by {
            if i < block.len() {
                assert(slots_view(es)[i] == block[i]);
                assert(slots_view(es)[i].location == es[0].0);
            } else {
                assert(slots_view(es)[i] == rest[i - block.len()]);
                let k = choose|k: int|
                    0 <= k < es.drop_first().len() && rest[i - block.len()].location
                        == es.drop_first()[k].0;
                assert(es.drop_first()[k].0 == es[k + 1].0);
                assert(slots_view(es)[i].location == es[k + 1].0);
            }
        }
    }
}

/// With one snapshot per location and slot counts a hold can index, no two
/// flattened slots share a key.
pub proof fn lemma_slots_distinct(es: Seq<(Location, crate::inventories::InventoryV)>)
    requires
        entries_wf(es),
        slots_bounded(es),
    ensures
        slots_distinct(slots_view(es)),
    decreases es.len(),
{
    if es.len() == 0 {
    } else {
        assert(entries_wf(es.drop_first()) && slots_bounded(es.drop_first())) by {
            assert(forall|i: int|
                0 <= i < es.drop_first().len() ==> es.drop_first()[i] == es[i + 1]);
        }
        lemma_slots_distinct(es.drop_first());
        lemma_slots_locs(es.drop_first());
        let block = crate::inventories::slots_of_entry(es[0].0, es[0].1);
        let rest = slots_view(es.drop_first());
        let sv = slots_view(es);
        assert(sv == block + rest);
        assert(es[0].1.slots.len() <= u32::MAX);
        assert forall|i: int, j: int| 0 <= i < j < sv.len() implies !(sv[i].location
            == sv[j].location && sv[i].slot as u32 == sv[j].slot as u32) by {
            if j < block.len() {
                assert(sv[i] == block[i] && sv[j] == block[j]);
                assert(block[i].slot == i as usize && block[j].slot == j as usize);
            } else if i < block.len() {
                assert(sv[i] == block[i]);
                assert(sv[j] == rest[j - block.len()]);
                let k = choose|k: int|
                    0 <= k < es.drop_first().len() && rest[j - block.len()].location
                        == es.drop_first()[k].0;
                assert(es.drop_first()[k] == es[k + 1]);
                assert(sv[i].location == es[0].0);
                assert(sv[j].location == es[k + 1].0);
            } else {
                assert(sv[i] == rest[i - block.len()] && sv[j] == rest[j - block.len()]);
            }
        }
    }
}

/// Each candidate is drawn from a slot that satisfies the criteria and is
/// not yet held.
pub proof fn lemma_candidates_elems(slots: Seq<SlotEntryV>, hs: Seq<Hold>, c: ItemMatchCriteria)
    ensures
        forall|i: int|
            0 <= i < spec_candidates(slots, hs, c).len() ==> exists|j: int|
                0 <= j < slots.len() && #[trigger] spec_candidates(slots, hs, c)[i] == cand_of(
                    slots[j],
                ) && is_candidate(slots[j], hs, c),
    decreases slots.len(),
{
    if slots.len() == 0 {
    } else {
        lemma_candidates_elems(slots.drop_first(), hs, c);
        let cs = spec_candidates(slots, hs, c);
        let rest = spec_candidates(slots.drop_first(), hs, c);
        assert forall|i: int| 0 <= i < cs.len() implies exists|j: int|
            0 <= j < slots.len() && #[trigger] cs[i] == cand_of(slots[j]) && is_candidate(
                slots[j],
                hs,
                c,
            ) by {
            let base: int = if is_candidate(slots[0], hs, c) {
                1
            } else {
                0
            };
            if is_candidate(slots[0], hs, c) && i == 0 {
                assert(cs[0] == cand_of(slots[0]));
            } else {
                assert(cs[i] == rest[i - base]);
                let j = choose|j: int|
                    0 <= j < slots.drop_first().len() && rest[i - base] == cand_of(
                        slots.drop_first()[j],
                    ) && is_candidate(slots.drop_first()[j], hs, c);
                assert(slots.drop_first()[j] == slots[j + 1]);
                assert(cs[i] == cand_of(slots[j + 1]) && is_candidate(slots[j + 1], hs, c));
            }
        }
    }
}

/// Distinct slots give distinct candidates.
pub proof fn lemma_candidates_distinct(slots: Seq<SlotEntryV>, hs: Seq<Hold>, c: ItemMatchCriteria)
    requires
        slots_distinct(slots),
    ensures
        cands_distinct(spec_candidates(slots, hs, c)),
    decreases slots.len(),
{
    if slots.len() == 0 {
    } else {
        assert(slots_distinct(slots.drop_first())) by {
            assert(forall|i: int|
                0 <= i < slots.drop_first().len() ==> slots.drop_first()[i] == slots[i + 1]);
        }
        lemma_candidates_distinct(slots.drop_first(), hs, c);
        lemma_candidates_elems(slots.drop_first(), hs, c);
        let cs = spec_candidates(slots, hs, c);
        let rest = spec_candidates(slots.drop_first(), hs, c);
        if is_candidate(slots[0], hs, c) {
            assert forall|i: int, j: int| 0 <= i < j < cs.len() implies !(cs[i].location
                == cs[j].location && cs[i].slot as u32 == cs[j].slot as u32) by {
                if i == 0 {
                    assert(cs[j] == rest[j - 1]);
                    let m = choose|m: int|
                        0 <= m < slots.drop_first().len() && rest[j - 1] == cand_of(
                            slots.drop_first()[m],
                        ) && is_candidate(slots.drop_first()[m], hs, c);
                    assert(slots.drop_first()[m] == slots[m + 1]);
                    assert(cs[0] == cand_of(slots[0]));
                } else {
                    assert(cs[i] == rest[i - 1] && cs[j] == rest[j - 1]);
                }
            }
        }
    }
}

/// Every candidate's slot is unheld.
pub proof fn lemma_candidates_unheld(slots: Seq<SlotEntryV>, hs: Seq<Hold>, c: ItemMatchCriteria)
    ensures
        forall|i: int|
            0 <= i < spec_candidates(slots, hs, c).len() ==> !holds_has(
                hs,
                #[trigger] spec_candidates(slots, hs, c)[i].location,
                spec_candidates(slots, hs, c)[i].slot as u32,
            ),
{
    lemma_candidates_elems(slots, hs, c);
    let cs = spec_candidates(slots, hs, c);
    assert forall|i: int| 0 <= i < cs.len() implies !holds_has(
        hs,
        #[trigger] cs[i].location,
        cs[i].slot as u32,
    ) by {
        let j = choose|j: int|
            0 <= j < slots.len() && cs[i] == cand_of(slots[j]) && is_candidate(slots[j], hs, c);
        assert(!holds_has(hs, slots[j].location, slots[j].slot as u32));
    }
}

/// What insertion produces: one new element among the old ones.
pub proof fn lemma_insert_desc_elems(x: Candidate, s: Seq<Candidate>)
    ensures
        insert_desc(x, s).len() == s.len() + 1,
        forall|i: int|
            0 <= i < insert_desc(x, s).len() ==> #[trigger] insert_desc(x, s)[i] == x || exists|
                j: int,
            | 0 <= j < s.len() && insert_desc(x, s)[i] == s[j],
    decreases s.len(),
{
    let out = insert_desc(x, s);
    if s.len() == 0 {
        assert(out[0] == x);
    } else if x.count > s[0].count {
        assert forall|i: int| 0 <= i < out.len() implies #[trigger] out[i] == x || exists|j: int|
            0 <= j < s.len() && out[i] == s[j] by {
            if i > 0 {
                assert(out[i] == s[i - 1]);
            }
        }
    } else {
        lemma_insert_desc_elems(x, s.drop_first());
        let sub = insert_desc(x, s.drop_first());
        assert forall|i: int| 0 <= i < out.len() implies #[trigger] out[i] == x || exists|j: int|
            0 <= j < s.len() && out[i] == s[j] by {
            if i == 0 {
                assert(out[0] == s[0]);
            } else {
                assert(out[i] == sub[i - 1]);
                if sub[i - 1] != x {
                    let j = choose|j: int|
                        0 <= j < s.drop_first().len() && sub[i - 1] == s.drop_first()[j];
                    assert(s.drop_first()[j] == s[j + 1]);
                }
            }
        }
    }
}

/// What sorting produces: the same candidates, in descending order of count.
pub proof fn lemma_sort_desc_elems(s: Seq<Candidate>)
    ensures
        sort_desc(s).len() == s.len(),
        forall|i: int|
            0 <= i < sort_desc(s).len() ==> exists|j: int|
                0 <= j < s.len() && #[trigger] sort_desc(s)[i] == s[j],
    decreases s.len(),
{
    if s.len() == 0 {
    } else {
        lemma_sort_desc_elems(s.drop_last());
        lemma_insert_desc_elems(s.last(), sort_desc(s.drop_last()));
        let sorted = sort_desc(s);
        let sub = sort_desc(s.drop_last());
        assert forall|i: int| 0 <= i < sorted.len() implies exists|j: int|
            0 <= j < s.len() && #[trigger] sorted[i] == s[j] by {
            if sorted[i] == s.last() {
                assert(sorted[i] == s[s.len() - 1]);
            } else {
                let m = choose|m: int| 0 <= m < sub.len() && sorted[i] == sub[m];
                let j = choose|j: int| 0 <= j < s.drop_last().len() && sub[m] == s.drop_last()[j];
                assert(s.drop_last()[j] == s[j]);
            }
        }
    }
}

/// Sorting keeps candidate keys distinct.
pub proof fn lemma_sort_desc_distinct(s: Seq<Candidate>)
    requires
        cands_distinct(s),
    ensures
        cands_distinct(sort_desc(s)),
{
    lemma_sort_desc_elems(s);
    let sorted = sort_desc(s);
    assert forall|i: int, j: int| 0 <= i < j < sorted.len() implies !(sorted[i].location
        == sorted[j].location && sorted[i].slot as u32 == sorted[j].slot as u32) by {
        if sorted[i].location == sorted[j].location && sorted[i].slot as u32 == sorted[j].slot
            as u32 {
            let p = choose|p: int| 0 <= p < s.len() && sort_desc(s)[i] == s[p];
            let q = choose|q: int| 0 <= q < s.len() && sort_desc(s)[j] == s[q];
            if p != q {
                assert(s[p].location == s[q].location && s[p].slot as u32 == s[q].slot as u32);
                assert(false);
            } else {
                let v = s[p];
                lemma_occ_two(sorted, i, j, v);
                lemma_sort_occ(s, v);
                lemma_distinct_occ(s, v);
                assert(false);
            }
        }
    }
}

/// How often a value occurs in a sequence.
pub open spec fn occurrences(s: Seq<Candidate>, v: Candidate) -> int
    decreases s.len(),
{
    if s.len() == 0 {
        0int
    } else {
        (if s[0] == v {
            1int
        } else {
            0int
        }) + occurrences(s.drop_first(), v)
    }
}

proof fn lemma_insert_count(x: Candidate, sub: Seq<Candidate>, v: Candidate)
    ensures
        occurrences(insert_desc(x, sub), v) == occurrences(sub, v) + (if v == x {
            1int
        } else {
            0int
        }),
    decreases sub.len(),
{
    let out = insert_desc(x, sub);
    if sub.len() == 0 {
        assert(out.drop_first() =~= Seq::<Candidate>::empty());
        assert(occurrences(out.drop_first(), v) == 0);
    } else if x.count > sub[0].count {
        assert(out.drop_first() =~= sub);
    } else {
        lemma_insert_count(x, sub.drop_first(), v);
        assert(out.drop_first() =~= insert_desc(x, sub.drop_first()));
    }
}

proof fn lemma_occ_push(s: Seq<Candidate>, y: Candidate, v: Candidate)
    ensures
        occurrences(s.push(y), v) == occurrences(s, v) + (if y == v {
            1int
        } else {
            0int
        }),
    decreases s.len(),
{
    let p = s.push(y);
    if s.len() == 0 {
        assert(p[0] == y);
        assert(p.drop_first() =~= Seq::<Candidate>::empty());
        assert(occurrences(p.drop_first(), v) == 0);
    } else {
        assert(p[0] == s[0]);
        assert(p.drop_first() =~= s.drop_first().push(y));
        lemma_occ_push(s.drop_first(), y, v);
    }
}

proof fn lemma_sort_occ(s: Seq<Candidate>, v: Candidate)
    ensures
        occurrences(sort_desc(s), v) == occurrences(s, v),
    decreases s.len(),
{
    if s.len() == 0 {
    } else {
        lemma_sort_occ(s.drop_last(), v);
        lemma_insert_count(s.last(), sort_desc(s.drop_last()), v);
        lemma_occ_push(s.drop_last(), s.last(), v);
        assert(s.drop_last().push(s.last()) =~= s);
    }
}

proof fn lemma_occ_one(s: Seq<Candidate>, i: int, v: Candidate)
    requires
        0 <= i < s.len(),
        s[i] == v,
    ensures
        occurrences(s, v) >= 1,
    decreases s.len(),
{
    if i == 0 {
        lemma_occ_nonneg(s.drop_first(), v);
    } else {
        assert(s.drop_first()[i - 1] == s[i]);
        lemma_occ_one(s.drop_first(), i - 1, v);
    }
}

proof fn lemma_occ_nonneg(s: Seq<Candidate>, v: Candidate)
    ensures
        occurrences(s, v) >= 0,
    decreases s.len(),
{
    if s.len() > 0 {
        lemma_occ_nonneg(s.drop_first(), v);
    }
}

proof fn lemma_occ_two(s: Seq<Candidate>, i: int, j: int, v: Candidate)
    requires
        0 <= i < j < s.len(),
        s[i] == v,
        s[j] == v,
    ensures
        occurrences(s, v) >= 2,
    decreases s.len(),
{
    if i == 0 {
        assert(s.drop_first()[j - 1] == s[j]);
        lemma_occ_one(s.drop_first(), j - 1, v);
    } else {
        assert(s.drop_first()[i - 1] == s[i]);
        assert(s.drop_first()[j - 1] == s[j]);
        lemma_occ_two(s.drop_first(), i - 1, j - 1, v);
    }
}

proof fn lemma_distinct_occ(s: Seq<Candidate>, v: Candidate)
    requires
        cands_distinct(s),
    ensures
        occurrences(s, v) <= 1,
    decreases s.len(),
{
    if s.len() == 0 {
    } else {
        assert(cands_distinct(s.drop_first())) by {
            assert(forall|i: int|
                0 <= i < s.drop_first().len() ==> s.drop_first()[i] == s[i + 1]);
        }
        lemma_distinct_occ(s.drop_first(), v);
        if s[0] == v {
            assert(occurrences(s.drop_first(), v) == 0) by {
                if occurrences(s.drop_first(), v) > 0 {
                    lemma_occ_index(s.drop_first(), v);
                    let m = choose|m: int|
                        0 <= m < s.drop_first().len() && s.drop_first()[m] == v;
                    assert(s[m + 1] == v);
                    assert(s[0].location == s[m + 1].location && s[0].slot as u32 == s[m
                        + 1].slot as u32);
                    assert(false);
                }
                lemma_occ_nonneg(s.drop_first(), v);
            }
        }
    }
}

proof fn lemma_occ_index(s: Seq<Candidate>, v: Candidate)
    requires
        occurrences(s, v) > 0,
    ensures
        exists|m: int| 0 <= m < s.len() && s[m] == v,
    decreases s.len(),
{
    if s.len() > 0 {
        if s[0] == v {
            assert(s[0] == v);
        } else {
            lemma_occ_index(s.drop_first(), v);
            let m = choose|m: int| 0 <= m < s.drop_first().len() && s.drop_first()[m] == v;
            assert(s[m + 1] == v);
        }
    }
}

/// One more slot appends its candidate, when it is one.
pub proof fn lemma_candidates_push(
    slots: Seq<SlotEntryV>,
    e: SlotEntryV,
    hs: Seq<Hold>,
    c: ItemMatchCriteria,
)
    ensures
        spec_candidates(slots.push(e), hs, c) == spec_candidates(slots, hs, c) + (
        if is_candidate(e, hs, c) {
            seq![cand_of(e)]
        } else {
            Seq::<Candidate>::empty()
        }),
    decreases slots.len(),
{
    let p = slots.push(e);
    if slots.len() == 0 {
        assert(p[0] == e);
        assert(p.drop_first() =~= Seq::<SlotEntryV>::empty());
        assert(spec_candidates(p.drop_first(), hs, c) == Seq::<Candidate>::empty());
        if is_candidate(e, hs, c) {
            assert(seq![cand_of(e)] + Seq::<Candidate>::empty() =~= Seq::<
                Candidate,
            >::empty() + seq![cand_of(e)]);
        } else {
            assert(Seq::<Candidate>::empty() + Seq::<Candidate>::empty() =~= Seq::<
                Candidate,
            >::empty());
        }
    } else {
        assert(p[0] == slots[0]);
        assert(p.drop_first() =~= slots.drop_first().push(e));
        lemma_candidates_push(slots.drop_first(), e, hs, c);
        let tail = if is_candidate(e, hs, c) {
            seq![cand_of(e)]
        } else {
            Seq::<Candidate>::empty()
        };
        if is_candidate(slots[0], hs, c) {
            assert(seq![cand_of(slots[0])] + (spec_candidates(slots.drop_first(), hs, c)
                + tail) =~= (seq![cand_of(slots[0])] + spec_candidates(
                slots.drop_first(),
                hs,
                c,
            )) + tail);
        }
    }
}

/// Inserts a candidate into a descending run, behind its equals.
fn insert_sorted(out: &mut Vec<Candidate>, x: Candidate)
    ensures
        final(out)@ == insert_desc(x, old(out)@),
{
    let ghost ss = old(out)@;
    proof {
        assert(ss.skip(0) =~= ss);
        assert(ss.take(0) =~= Seq::<Candidate>::empty());
    }
    let mut p: usize = 0;
    while p < out.len()
        invariant
            0 <= p <= out@.len(),
            ss == out@,
            ss == old(out)@,
            insert_desc(x, ss) == ss.take(p as int) + insert_desc(x, ss.skip(p as int)),
        decreases out@.len() - p,
    {
        proof {
            assert(ss.skip(p as int)[0] == ss[p as int]);
        }
        if x.count > out[p].count {
            out.insert(p, x);
            proof {
                assert(insert_desc(x, ss.skip(p as int)) == seq![x] + ss.skip(p as int));
                assert(out@ == ss.insert(p as int, x));
                assert(ss.insert(p as int, x) =~= ss.take(p as int) + (seq![x] + ss.skip(
                    p as int,
                )));
            }
            return ;
        }
        proof {
            assert(ss.skip(p as int).drop_first() =~= ss.skip(p + 1));
            assert(insert_desc(x, ss.skip(p as int)) == seq![ss[p as int]] + insert_desc(
                x,
                ss.skip(p + 1),
            ));
            assert(ss.take(p as int) + (seq![ss[p as int]] + insert_desc(x, ss.skip(p + 1)))
                =~= ss.take(p + 1) + insert_desc(x, ss.skip(p + 1)));
        }
        p += 1;
    }
    proof {
        assert(ss.skip(p as int).len() == 0);
        assert(insert_desc(x, ss.skip(p as int)) == seq![x]);
        assert(ss.take(p as int) =~= ss);
    }
    out.push(x);
    proof {
        assert(out@ =~= ss + seq![x]);
    }
}

impl HoldRequestFilter {
    /// Resolves this request against the shared state: reads the inventory
    /// store, and claims slots through the hold store's indivisible
    /// check-then-create.
    pub fn attempt_match(&self, state: &mut State) -> (r: Result<Vec<Hold>, HoldMatchError>)
        requires
            entries_wf(inv_entries(old(state).inventories)),
            slots_bounded(inv_entries(old(state).inventories)),
            holds_wf(old(state).holds.holds@),
        ensures
            final(state).inventories == old(state).inventories,
            holds_wf(final(state).holds.holds@),
            match *self {
                HoldRequestFilter::EmptySlot => {
                    let slots = slots_view(inv_entries(old(state).inventories));
                    match spec_first_empty(slots, old(state).holds.holds@) {
                        Some(e) => r is Ok && r->Ok_0@ == seq![hold_of(e)] && final(state).holds.holds@ == old(state).holds.holds@.push(hold_of(e)),
                        None => r is Err && r->Err_0 == HoldMatchError::NoMatch && final(state).holds.holds@ == old(state).holds.holds@,
                    }
                },
                HoldRequestFilter::ItemMatch { match_criteria, total } => {
                    let slots = slots_view(inv_entries(old(state).inventories));
                    let cands = spec_candidates(slots, old(state).holds.holds@, match_criteria);
                    if cands.len() == 0 {
                        r is Err && r->Err_0 == HoldMatchError::NoMatch && final(state).holds.holds@ == old(state).holds.holds@
                    } else {
                        let sorted = sort_desc(cands);
                        let k = greedy_len(sorted, total as int);
                        r is Ok && r->Ok_0@ == holds_of(sorted.take(k)) && final(state).holds.holds@ == old(state).holds.holds@ + holds_of(sorted.take(k))
                    }
                },
                HoldRequestFilter::SlotLocation { location, slot, open_from } => {
                    if holds_has(old(state).holds.holds@, location, slot) {
                        r is Err && r->Err_0 == HoldMatchError::AlreadyHeld && final(state).holds.holds@ == old(state).holds.holds@
                    } else {
                        r is Ok && r->Ok_0@ == seq![Hold { location, slot, open_from }]
                            && final(state).holds.holds@ == old(state).holds.holds@.push(
                            Hold { location, slot, open_from },
                        )
                    }
                },
            },
    {
        match self {
            HoldRequestFilter::EmptySlot => {
                let slots = state.inventories.iter_slots();
                let ghost svs = slot_entry_views(slots@);
                let ghost hs0 = state.holds.holds@;
                proof {
                    assert(svs.skip(0) =~= svs);
                }
                let mut i: usize = 0;
                while i < slots.len()
                    invariant
                        *self is EmptySlot,
                        0 <= i <= slots@.len(),
                        svs == slot_entry_views(slots@),
                        svs.len() == slots@.len(),
                        svs == slots_view(inv_entries(old(state).inventories)),
                        state.inventories == old(state).inventories,
                        state.holds.holds@ == hs0,
                        hs0 == old(state).holds.holds@,
                        holds_wf(hs0),
                        spec_first_empty(svs, hs0) == spec_first_empty(
                            svs.skip(i as int),
                            hs0,
                        ),
                    decreases slots@.len() - i,
                {
                    proof {
                        assert(svs.skip(i as int)[0] == svs[i as int]);
                        assert(svs[i as int] == crate::inventories::slot_entry_view(
                            slots@[i as int],
                        ));
                    }
                    let loc = slots[i].location;
                    let slot32: u32 = #[verifier::truncate] (slots[i].slot as u32);
                    if slots[i].item.is_none() {
                        proof {
                            lemma_hold_at_has(hs0, loc, slot32);
                        }
                        match state.holds.existing_hold(loc, slot32) {
                            Some(_) => {
                                proof {
                                    assert(spec_first_empty(svs.skip(i as int), hs0)
                                        == spec_first_empty(svs.skip(i + 1), hs0)) by {
                                        assert(svs.skip(i as int).drop_first() =~= svs.skip(
                                            i + 1,
                                        ));
                                    }
                                }
                            },
                            None => {
                                proof {
                                    assert(!holds_has(hs0, loc, slot32));
                                    assert(spec_first_empty(svs.skip(i as int), hs0) == Some(
                                        svs[i as int],
                                    ));
                                }
                                let open_from = slots[i].open_from;
                                match state.holds.create(loc, slot32, open_from) {
                                    Ok(h) => {
                                        let out = vec![h];
                                        proof {
                                            assert(h == hold_of(svs[i as int]));
                                            assert(out@ =~= seq![hold_of(svs[i as int])]);
                                        }
                                        return Ok(out);
                                    },
                                    Err(_) => {
                                        proof {
                                            assert(false);
                                        }
                                        return Err(HoldMatchError::NoMatch);
                                    },
                                }
                            },
                        }
                    } else {
                        proof {
                            assert(svs[i as int].item is Some);
                            assert(spec_first_empty(svs.skip(i as int), hs0)
                                == spec_first_empty(svs.skip(i + 1), hs0)) by {
                                assert(svs.skip(i as int).drop_first() =~= svs.skip(i + 1));
                            }
                        }
                    }
                    i += 1;
                }
                proof {
                    assert(svs.skip(i as int).len() == 0);
                }
                Err(HoldMatchError::NoMatch)
            },
            HoldRequestFilter::ItemMatch { match_criteria, total } => {
                let slots = state.inventories.iter_slots();
                let ghost svs = slot_entry_views(slots@);
                let ghost hs0 = state.holds.holds@;
                let ghost crit = *match_criteria;
                let mut cands: Vec<Candidate> = Vec::new();
                proof {
                    assert(svs.take(0) =~= Seq::<SlotEntryV>::empty());
                    assert(cands@ =~= spec_candidates(svs.take(0), hs0, crit));
                }
                let mut i: usize = 0;
                while i < slots.len()
                    invariant
                        0 <= i <= slots@.len(),
                        svs == slot_entry_views(slots@),
                        svs.len() == slots@.len(),
                        svs == slots_view(inv_entries(old(state).inventories)),
                        state.inventories == old(state).inventories,
                        state.holds.holds@ == hs0,
                        hs0 == old(state).holds.holds@,
                        holds_wf(hs0),
                        crit == *match_criteria,
                        cands@ == spec_candidates(svs.take(i as int), hs0, crit),
                    decreases slots@.len() - i,
                {
                    proof {
                        assert(svs.take(i + 1) =~= svs.take(i as int).push(svs[i as int]));
                        lemma_candidates_push(svs.take(i as int), svs[i as int], hs0, crit);
                        assert(svs[i as int] == crate::inventories::slot_entry_view(
                            slots@[i as int],
                        ));
                    }
                    let loc = slots[i].location;
                    let slot32: u32 = #[verifier::truncate] (slots[i].slot as u32);
                    let mut added = false;
                    match &slots[i].item {
                        Some(it) => {
                            if match_criteria.matches_item(it) {
                                proof {
                                    lemma_hold_at_has(hs0, loc, slot32);
                                }
                                match state.holds.existing_hold(loc, slot32) {
                                    Some(_) => {
                                        proof {
                                            assert(!is_candidate(svs[i as int], hs0, crit));
                                        }
                                    },
                                    None => {
                                        proof {
                                            assert(is_candidate(svs[i as int], hs0, crit));
                                        }
                                        let c = Candidate {
                                            location: loc,
                                            slot: slots[i].slot,
                                            count: it.count,
                                            open_from: slots[i].open_from,
                                        };
                                        let ghost prev = cands@;
                                        cands.push(c);
                                        added = true;
                                        proof {
                                            assert(c == cand_of(svs[i as int]));
                                            assert(cands@ =~= prev + seq![
                                                cand_of(svs[i as int]),
                                            ]);
                                        }
                                    },
                                }
                            } else {
                                proof {
                                    assert(!is_candidate(svs[i as int], hs0, crit));
                                }
                            }
                        },
                        None => {
                            proof {
                                assert(!is_candidate(svs[i as int], hs0, crit));
                            }
                        },
                    }
                    proof {
                        if !added {
                            assert(cands@ =~= cands@ + Seq::<Candidate>::empty());
                        }
                    }
                    i += 1;
                }
                proof {
                    assert(svs.take(i as int) =~= svs);
                }
                let ghost cvs = spec_candidates(svs, hs0, crit);
                if cands.len() == 0 {
                    return Err(HoldMatchError::NoMatch);
                }
                // Sort the candidates, largest stack first, stably.
                let mut sorted: Vec<Candidate> = Vec::new();
                proof {
                    assert(cands@.take(0) =~= Seq::<Candidate>::empty());
                    assert(sorted@ =~= sort_desc(cands@.take(0)));
                }
                let mut m: usize = 0;
                while m < cands.len()
                    invariant
                        0 <= m <= cands@.len(),
                        cands@ == cvs,
                        sorted@ == sort_desc(cands@.take(m as int)),
                    decreases cands@.len() - m,
                {
                    proof {
                        assert(cands@.take(m + 1).drop_last() =~= cands@.take(m as int));
                        assert(cands@.take(m + 1).last() == cands@[m as int]);
                    }
                    insert_sorted(&mut sorted, cands[m]);
                    m += 1;
                }
                proof {
                    assert(cands@.take(cands@.len() as int) =~= cands@);
                }
                let ghost sv = sort_desc(cvs);
                proof {
                    lemma_slots_distinct(inv_entries(old(state).inventories));
                    lemma_candidates_distinct(svs, hs0, crit);
                    lemma_candidates_unheld(svs, hs0, crit);
                    lemma_sort_desc_distinct(cvs);
                    lemma_sort_desc_elems(cvs);
                    assert forall|q: int| 0 <= q < sv.len() implies !holds_has(
                        hs0,
                        #[trigger] sv[q].location,
                        sv[q].slot as u32,
                    ) by {
                        assert(sv[q] == sort_desc(cvs)[q]);
                        let j = choose|j: int| 0 <= j < cvs.len() && sort_desc(cvs)[q] == cvs[j];
                        assert(cvs[j] == spec_candidates(svs, hs0, crit)[j]);
                        assert(!holds_has(
                            hs0,
                            spec_candidates(svs, hs0, crit)[j].location,
                            spec_candidates(svs, hs0, crit)[j].slot as u32,
                        ));
                        assert(sv[q] == cvs[j]);
                    }
                }
                let ghost k_total = greedy_len(sv, (*total) as int);
                let mut holds: Vec<Hold> = Vec::new();
                let mut remaining: i128 = *total as i128;
                let mut stop = false;
                proof {
                    assert(sv.take(0) =~= Seq::<Candidate>::empty());
                    assert(holds@ =~= holds_of(sv.take(0)));
                    assert(hs0 + holds_of(sv.take(0)) =~= hs0);
                    assert(sv.skip(0) =~= sv);
                }
                let mut m: usize = 0;
                while m < sorted.len() && !stop
                    invariant
                        0 <= m <= sorted@.len(),
                        sorted@ == sv,
                        sv.len() == cvs.len(),
                        cands_distinct(sv),
                        forall|q: int|
                            0 <= q < sv.len() ==> !holds_has(
                                hs0,
                                #[trigger] sv[q].location,
                                sv[q].slot as u32,
                            ),
                        holds@ == holds_of(sv.take(m as int)),
                        state.holds.holds@ == hs0 + holds_of(sv.take(m as int)),
                        state.inventories == old(state).inventories,
                        hs0 == old(state).holds.holds@,
                        holds_wf(state.holds.holds@),
                        -0x1_0000_0000 < remaining <= u64::MAX,
                        !stop ==> remaining >= 0,
                        !stop ==> k_total == m + greedy_len(sv.skip(m as int), remaining as int),
                        stop ==> k_total == m,
                        stop ==> m > 0,
                    decreases sorted@.len() - m,
                {
                    let c = sorted[m];
                    proof {
                        assert(c == sv[m as int]);
                        assert(!holds_has(hs0, sv[m as int].location, sv[m as int].slot as u32));
                        assert(!holds_has(hs0, c.location, c.slot as u32));
                        assert(!holds_has(
                            holds_of(sv.take(m as int)),
                            c.location,
                            c.slot as u32,
                        )) by {
                            if holds_has(holds_of(sv.take(m as int)), c.location, c.slot
                                as u32) {
                                let q = choose|q: int|
                                    0 <= q < holds_of(sv.take(m as int)).len() && holds_of(
                                        sv.take(m as int),
                                    )[q].location == c.location && holds_of(
                                        sv.take(m as int),
                                    )[q].slot == c.slot as u32;
                                assert(holds_of(sv.take(m as int))[q] == hold_of_cand(
                                    sv[q],
                                ));
                                assert(!(sv[q].location == sv[m as int].location && sv[q].slot
                                    as u32 == sv[m as int].slot as u32));
                            }
                        }
                        assert(!holds_has(state.holds.holds@, c.location, c.slot as u32)) by {
                            if holds_has(state.holds.holds@, c.location, c.slot as u32) {
                                let q = choose|q: int|
                                    0 <= q < state.holds.holds@.len()
                                        && state.holds.holds@[q].location == c.location
                                        && state.holds.holds@[q].slot == c.slot as u32;
                                if q < hs0.len() {
                                    assert(state.holds.holds@[q] == hs0[q]);
                                    assert(holds_has(hs0, c.location, c.slot as u32));
                                } else {
                                    assert(state.holds.holds@[q] == holds_of(
                                        sv.take(m as int),
                                    )[q - hs0.len()]);
                                    assert(holds_has(
                                        holds_of(sv.take(m as int)),
                                        c.location,
                                        c.slot as u32,
                                    ));
                                }
                            }
                        }
                        lemma_hold_at_has(state.holds.holds@, c.location, c.slot as u32);
                    }
                    let slot32: u32 = #[verifier::truncate] (c.slot as u32);
                    let h = match state.holds.create(c.location, slot32, c.open_from) {
                        Ok(h) => h,
                        Err(_) => {
                            proof {
                                assert(false);
                            }
                            return Err(HoldMatchError::NoMatch);
                        },
                    };
                    holds.push(h);
                    proof {
                        assert(h == hold_of_cand(sv[m as int]));
                        assert(holds@ =~= holds_of(sv.take(m + 1)));
                        assert(hs0 + holds_of(sv.take(m as int)) + seq![h] =~= hs0 + holds_of(
                            sv.take(m + 1),
                        ));
                    }
                    let ghost old_rem = remaining as int;
                    remaining = remaining - c.count as i128;
                    if remaining <= 0 {
                        stop = true;
                    }
                    proof {
                        assert(sv.skip(m as int)[0] == sv[m as int]);
                        assert(sv.skip(m as int).drop_first() =~= sv.skip(m + 1));
                        assert(greedy_len(sv.skip(m as int), old_rem) == (
                        if old_rem - sv[m as int].count <= 0 {
                            1int
                        } else {
                            1 + greedy_len(sv.skip(m + 1), old_rem - sv[m as int].count)
                        }));
                    }
                    m += 1;
                }
                proof {
                    if !stop {
                        assert(m == sv.len());
                        assert(sv.skip(m as int).len() == 0);
                        assert(greedy_len(sv.skip(m as int), remaining as int) == 0);
                    }
                    assert(k_total == m);
                    assert(holds@ == holds_of(sv.take(k_total)));
                }
                Ok(holds)
            },
            HoldRequestFilter::SlotLocation { location, slot, open_from } => {
                proof {
                    lemma_hold_at_has(state.holds.holds@, *location, *slot);
                }
                match state.holds.create(*location, *slot, *open_from) {
                    Ok(h) => {
                        let out = vec![h];
                        proof {
                            assert(out@ =~= seq![
                                Hold { location: *location, slot: *slot, open_from: *open_from },
                            ]);
                        }
                        Ok(out)
                    },
                    Err(_) => Err(HoldMatchError::AlreadyHeld),
                }
            },
        }
    }
}

/// An empty-slot match never picks a slot that has an item or an existing
/// hold.
pub proof fn lemma_first_empty_props(slots: Seq<SlotEntryV>, hs: Seq<Hold>)
    ensures
        spec_first_empty(slots, hs) matches Some(e) ==> e.item is None && !holds_has(
            hs,
            e.location,
            e.slot as u32,
        ),
    decreases slots.len(),
{
    if slots.len() == 0 {
    } else if slots[0].item is None && !holds_has(hs, slots[0].location, slots[0].slot
        as u32) {
    } else {
        lemma_first_empty_props(slots.drop_first(), hs);
    }
}

/// What a successful empty-slot match means: the chosen slot held no item
/// and no claim, and afterwards its slot reports as held.
pub proof fn lemma_empty_slot_match_exclusive(slots: Seq<SlotEntryV>, hs: Seq<Hold>)
    requires
        spec_first_empty(slots, hs) is Some,
    ensures
        spec_first_empty(slots, hs)->Some_0.item is None,
        !holds_has(
            hs,
            spec_first_empty(slots, hs)->Some_0.location,
            spec_first_empty(slots, hs)->Some_0.slot as u32,
        ),
        holds_has(
            hs.push(hold_of(spec_first_empty(slots, hs)->Some_0)),
            spec_first_empty(slots, hs)->Some_0.location,
            spec_first_empty(slots, hs)->Some_0.slot as u32,
        ),
{
    lemma_first_empty_props(slots, hs);
    let e = spec_first_empty(slots, hs)->Some_0;
    lemma_hold_exclusive(hs, e.location, e.slot as u32, e.open_from);
    assert(hold_of(e) == Hold { location: e.location, slot: e.slot as u32, open_from: e.open_from });
}

/// Larger stacks come first in a sorted candidate run.
pub open spec fn sorted_desc(s: Seq<Candidate>) -> bool {
    forall|i: int, j: int| 0 <= i < j < s.len() ==> s[i].count >= s[j].count
}

proof fn lemma_insert_desc_sorted(x: Candidate, s: Seq<Candidate>)
    requires
        sorted_desc(s),
    ensures
        sorted_desc(insert_desc(x, s)),
    decreases s.len(),
{
    let out = insert_desc(x, s);
    if s.len() == 0 {
    } else if x.count > s[0].count {
        assert forall|i: int, j: int| 0 <= i < j < out.len() implies out[i].count
            >= out[j].count by {
            assert(out[j] == s[j - 1]);
            if i > 0 {
                assert(out[i] == s[i - 1]);
            }
        }
    } else {
        assert(sorted_desc(s.drop_first())) by {
            assert(forall|i: int|
                0 <= i < s.drop_first().len() ==> s.drop_first()[i] == s[i + 1]);
        }
        lemma_insert_desc_sorted(x, s.drop_first());
        lemma_insert_desc_elems(x, s.drop_first());
        let sub = insert_desc(x, s.drop_first());
        assert forall|i: int, j: int| 0 <= i < j < out.len() implies out[i].count
            >= out[j].count by {
            if i == 0 {
                assert(out[0] == s[0]);
                assert(out[j] == sub[j - 1]);
                if sub[j - 1] != x {
                    let k = choose|k: int|
                        0 <= k < s.drop_first().len() && sub[j - 1] == s.drop_first()[k];
                    assert(s.drop_first()[k] == s[k + 1]);
                }
            } else {
                assert(out[i] == sub[i - 1] && out[j] == sub[j - 1]);
            }
        }
    }
}

/// The matcher's candidate order really is by count, largest first.
pub proof fn lemma_sort_desc_sorted(s: Seq<Candidate>)
    ensures
        sorted_desc(sort_desc(s)),
    decreases s.len(),
{
    if s.len() == 0 {
    } else {
        lemma_sort_desc_sorted(s.drop_last());
        lemma_insert_desc_sorted(s.last(), sort_desc(s.drop_last()));
    }
}

/// Sum of the counts a run of candidates offers.
pub open spec fn cand_count_sum(s: Seq<Candidate>) -> int
    decreases s.len(),
{
    if s.len() == 0 {
        0int
    } else {
        s[0].count + cand_count_sum(s.drop_first())
    }
}

/// Greedy claiming is exact: it takes between one candidate (when any exist)
/// and all of them, and the taken prefix accumulates at least the requested
/// total unless every candidate was taken.
pub proof fn lemma_greedy_covers(s: Seq<Candidate>, total: int)
    ensures
        0 <= greedy_len(s, total) <= s.len(),
        s.len() > 0 ==> greedy_len(s, total) >= 1,
        greedy_len(s, total) == s.len() || cand_count_sum(s.take(greedy_len(s, total)))
            >= total,
    decreases s.len(),
{
    if s.len() == 0 {
    } else {
        let rem2 = total - s[0].count;
        if rem2 <= 0 {
            let t = s.take(1);
            assert(t[0] == s[0]);
            assert(t.drop_first() =~= Seq::<Candidate>::empty());
            assert(cand_count_sum(t.drop_first()) == 0);
            assert(cand_count_sum(t) == s[0].count);
        } else {
            lemma_greedy_covers(s.drop_first(), rem2);
            let k = 1 + greedy_len(s.drop_first(), rem2);
            if greedy_len(s.drop_first(), rem2) != s.drop_first().len() {
                let t = s.take(k);
                assert(t[0] == s[0]);
                assert(t.drop_first() =~= s.drop_first().take(k - 1));
                assert(cand_count_sum(t) == s[0].count + cand_count_sum(
                    s.drop_first().take(k - 1),
                ));
            }
        }
    }
}

} // verus!
