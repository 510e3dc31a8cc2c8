//! The listing aggregator: one pass over the flattened slots produces a
//! deduplicated item listing, merged by stackable hash, under a configurable
//! container-unpacking policy.

use vstd::prelude::*;
use vstd::pervasive::VecAdditionalExecFns;
use crate::inventories::{inv_entries, slot_entry_views, slots_view, InventoryState, SlotEntryV};
use crate::item::{item_view, item_views_of, Item, ItemV};

verus! {

/// The container-unpacking policy of a listing.
#[derive(Clone, Copy, PartialEq, Eq, Debug, Structural)]
pub enum ShulkerUnpacking {
    /// Unpack every non-empty container.
    FullListing,
    /// Unpack only non-empty containers without a custom name.
    UnnamedOnly,
    /// Never unpack; containers appear as single opaque entries.
    NoUnpacking,
}

/// Options of one listing pass.
pub struct InventoryListingOptions {
    pub shulker_unpacking: ShulkerUnpacking,
}

/// The items sitting in occupied slots, in slot order.
pub open spec fn spec_occupied(slots: Seq<SlotEntryV>) -> Seq<ItemV>
    decreases slots.len(),
{
    if slots.len() == 0 {
        Seq::empty()
    } else {
        let rest = spec_occupied(slots.drop_first());
        match slots[0].item {
            Some(it) => seq![it] + rest,
            None => rest,
        }
    }
}

/// Whether the policy unpacks this item: it must be a container, non-empty,
/// and the policy must admit it.
pub open spec fn spec_should_unpack(it: ItemV, u: ShulkerUnpacking) -> bool {
    match it.shulker_data {
        Some(sd) => sd.contained_items.len() > 0 && (u == ShulkerUnpacking::FullListing || (u
            == ShulkerUnpacking::UnnamedOnly && sd.name is None)),
        None => false,
    }
}

/// What one slot item contributes to the listing: its contents when it is
/// unpacked, the item itself otherwise.
pub open spec fn spec_emitted(it: ItemV, u: ShulkerUnpacking) -> Seq<ItemV> {
    if spec_should_unpack(it, u) {
        it.shulker_data->Some_0.contained_items
    } else {
        seq![it]
    }
}

/// Everything the occupied slots contribute, in slot order.
pub open spec fn spec_all_emitted(items: Seq<ItemV>, u: ShulkerUnpacking) -> Seq<ItemV>
    decreases items.len(),
{
    if items.len() == 0 {
        Seq::empty()
    } else {
        spec_emitted(items[0], u) + spec_all_emitted(items.drop_first(), u)
    }
}

/// Whether a container holds contained items that are all of one kind and
/// all at full stack size.
pub open spec fn spec_homog_full(it: ItemV) -> bool {
    match it.shulker_data {
        Some(sd) => sd.contained_items.len() > 0 && (forall|i: int|
            0 <= i < sd.contained_items.len()
                ==> #[trigger] sd.contained_items[i].stackable_hash
                == sd.contained_items[0].stackable_hash) && (forall|i: int|
            0 <= i < sd.contained_items.len() ==> #[trigger] sd.contained_items[i].count
                == sd.contained_items[i].stack_size),
        None => false,
    }
}

/// The contained-hash to container-hash mapping the pass records: for every
/// homogeneous-full container, the contained kind maps to the container's own
/// hash, the last-processed container winning.
pub open spec fn spec_full_map(items: Seq<ItemV>) -> Map<u64, u64>
    decreases items.len(),
{
    if items.len() == 0 {
        Map::empty()
    } else {
        let m = spec_full_map(items.drop_last());
        let it = items.last();
        if spec_homog_full(it) {
            m.insert(it.shulker_data->Some_0.contained_items[0].stackable_hash, it.stackable_hash)
        } else {
            m
        }
    }
}

/// Addition of counts, saturating at the widest count an item can carry.
pub open spec fn sat_add_u32(a: u32, b: u32) -> u32 {
    if a + b > u32::MAX {
        u32::MAX
    } else {
        (a + b) as u32
    }
}

/// The merged entry: the first-encountered item of the kind, carrying the
/// accumulated count.
pub open spec fn merged_with(base: ItemV, extra: u32) -> ItemV {
    ItemV {
        item_id: base.item_id,
        count: sat_add_u32(base.count, extra),
        data_components: base.data_components,
        stack_size: base.stack_size,
        stackable_hash: base.stackable_hash,
        full_shulker_stackable_hash: base.full_shulker_stackable_hash,
        shulker_data: base.shulker_data,
    }
}

/// Merging one item into the accumulated listing: sum counts into the entry
/// of the same kind, or append a new entry.
pub open spec fn spec_merge_one(acc: Seq<ItemV>, x: ItemV) -> Seq<ItemV>
    decreases acc.len(),
{
    if acc.len() == 0 {
        seq![x]
    } else if acc[0].stackable_hash == x.stackable_hash {
        seq![merged_with(acc[0], x.count)] + acc.drop_first()
    } else {
        seq![acc[0]] + spec_merge_one(acc.drop_first(), x)
    }
}

/// Merging a stream of items, in order.
pub open spec fn spec_merge(acc: Seq<ItemV>, items: Seq<ItemV>) -> Seq<ItemV>
    decreases items.len(),
{
    if items.len() == 0 {
        acc
    } else {
        spec_merge(spec_merge_one(acc, items[0]), items.drop_first())
    }
}

/// The item with its full-container tag set.
pub open spec fn with_tag(it: ItemV, t: u64) -> ItemV {
    ItemV {
        item_id: it.item_id,
        count: it.count,
        data_components: it.data_components,
        stack_size: it.stack_size,
        stackable_hash: it.stackable_hash,
        full_shulker_stackable_hash: Some(t),
        shulker_data: it.shulker_data,
    }
}

/// The stackable hashes of a run of items, in order.
pub open spec fn hashes_of(s: Seq<ItemV>) -> Seq<u64> {
    Seq::new(
        s.len(),
        |i: int|
            if 0 <= i < s.len() {
                s[i].stackable_hash
            } else {
                arbitrary()
            },
    )
}

/// The kinds that reached the listing through unpacking: the contained
/// hashes of every container the policy unpacked. Only these may be stamped
/// with a full-container tag.
pub open spec fn spec_unpacked_hashes(items: Seq<ItemV>, u: ShulkerUnpacking) -> Seq<u64>
    decreases items.len(),
{
    if items.len() == 0 {
        Seq::empty()
    } else {
        (if spec_should_unpack(items[0], u) {
            hashes_of(items[0].shulker_data->Some_0.contained_items)
        } else {
            Seq::<u64>::empty()
        }) + spec_unpacked_hashes(items.drop_first(), u)
    }
}

/// The listing with every entry that was fed by unpacking and whose kind is
/// mapped stamped with its container hash; entries merged only as opaque
/// items are never stamped.
pub open spec fn spec_apply_tags(s: Seq<ItemV>, m: Map<u64, u64>, fed: Seq<u64>) -> Seq<ItemV> {
    Seq::new(
        s.len(),
        |i: int|
            if 0 <= i < s.len() {
                if m.dom().contains(s[i].stackable_hash) && fed.contains(s[i].stackable_hash) {
                    with_tag(s[i], m[s[i].stackable_hash])
                } else {
                    s[i]
                }
            } else {
                arbitrary()
            },
    )
}

/// The whole aggregation: merge what the occupied slots emit under the
/// policy, then stamp full-container tags on the kinds that unpacking fed.
pub open spec fn spec_listing(slots: Seq<SlotEntryV>, u: ShulkerUnpacking) -> Seq<ItemV> {
    let occ = spec_occupied(slots);
    spec_apply_tags(
        spec_merge(Seq::empty(), spec_all_emitted(occ, u)),
        spec_full_map(occ),
        spec_unpacked_hashes(occ, u),
    )
}

/// One more occupied item appends the contained hashes it unpacks.
pub proof fn lemma_unpacked_push(items: Seq<ItemV>, x: ItemV, u: ShulkerUnpacking)
    ensures
        spec_unpacked_hashes(items.push(x), u) == spec_unpacked_hashes(items, u) + (
        if spec_should_unpack(x, u) {
            hashes_of(x.shulker_data->Some_0.contained_items)
        } else {
            Seq::<u64>::empty()
        }),
    decreases items.len(),
{
    let p = items.push(x);
    let tail = if spec_should_unpack(x, u) {
        hashes_of(x.shulker_data->Some_0.contained_items)
    } else {
        Seq::<u64>::empty()
    };
    if items.len() == 0 {
        assert(p[0] == x);
        assert(p.drop_first() =~= Seq::<ItemV>::empty());
        assert(spec_unpacked_hashes(p.drop_first(), u) == Seq::<u64>::empty());
        assert(tail + Seq::<u64>::empty() =~= Seq::<u64>::empty() + tail);
    } else {
        assert(p[0] == items[0]);
        assert(p.drop_first() =~= items.drop_first().push(x));
        lemma_unpacked_push(items.drop_first(), x, u);
        let head = if spec_should_unpack(items[0], u) {
            hashes_of(items[0].shulker_data->Some_0.contained_items)
        } else {
            Seq::<u64>::empty()
        };
        assert(head + (spec_unpacked_hashes(items.drop_first(), u) + tail) =~= (head
            + spec_unpacked_hashes(items.drop_first(), u)) + tail);
    }
}

/// Whether a run of hashes holds one.
fn contains_hash(v: &Vec<u64>, h: u64) -> (r: bool)
    ensures
        r == v@.contains(h),
{
    let mut i: usize = 0;
    while i < v.len()
        invariant
            0 <= i <= v@.len(),
            forall|j: int| 0 <= j < i ==> v@[j] != h,
        decreases v@.len() - i,
    {
        if v[i] == h {
            return true;
        }
        i += 1;
    }
    false
}

/// No two entries share a stackable hash.
pub open spec fn unique_hashes(s: Seq<ItemV>) -> bool {
    forall|i: int, j: int|
        0 <= i < j < s.len() ==> s[i].stackable_hash != s[j].stackable_hash
}

/// Some entry carries this hash.
pub open spec fn has_hash(s: Seq<ItemV>, h: u64) -> bool {
    exists|i: int| 0 <= i < s.len() && s[i].stackable_hash == h
}

pub proof fn lemma_merge_one_props(acc: Seq<ItemV>, x: ItemV)
    requires
        unique_hashes(acc),
    ensures
        unique_hashes(spec_merge_one(acc, x)),
        forall|h: u64|
            #[trigger] has_hash(spec_merge_one(acc, x), h) <==> (has_hash(acc, h) || h
                == x.stackable_hash),
    decreases acc.len(),
{
    let out = spec_merge_one(acc, x);
    if acc.len() == 0 {
        assert forall|h: u64|
            has_hash(out, h) <==> (has_hash(acc, h) || h == x.stackable_hash) by {
            assert(out[0] == x);
            if h == x.stackable_hash {
                assert(out[0].stackable_hash == h);
            }
        }
    } else if acc[0].stackable_hash == x.stackable_hash {
        assert forall|h: u64|
            has_hash(out, h) <==> (has_hash(acc, h) || h == x.stackable_hash) by {
            assert(out[0] == merged_with(acc[0], x.count));
            assert(forall|i: int| 0 < i < out.len() ==> out[i] == acc[i]);
            if has_hash(out, h) {
                let i = choose|i: int| 0 <= i < out.len() && out[i].stackable_hash == h;
                assert(acc[i].stackable_hash == h);
            }
            if has_hash(acc, h) {
                let i = choose|i: int| 0 <= i < acc.len() && acc[i].stackable_hash == h;
                assert(out[i].stackable_hash == h);
            }
        }
        assert forall|i: int, j: int| 0 <= i < j < out.len() implies out[i].stackable_hash
            != out[j].stackable_hash by {
            assert(out[j] == acc[j]);
            if i > 0 {
                assert(out[i] == acc[i]);
            }
        }
    } else {
        assert(unique_hashes(acc.drop_first())) by {
            assert(forall|i: int|
                0 <= i < acc.drop_first().len() ==> acc.drop_first()[i] == acc[i + 1]);
        }
        lemma_merge_one_props(acc.drop_first(), x);
        let sub = spec_merge_one(acc.drop_first(), x);
        assert(out == seq![acc[0]] + sub);
        assert forall|h: u64|
            has_hash(out, h) <==> (has_hash(acc, h) || h == x.stackable_hash) by {
            if has_hash(out, h) {
                let i = choose|i: int| 0 <= i < out.len() && out[i].stackable_hash == h;
                if i == 0 {
                    assert(acc[0].stackable_hash == h);
                } else {
                    assert(sub[i - 1].stackable_hash == h);
                    assert(has_hash(sub, h));
                    if h != x.stackable_hash {
                        assert(has_hash(acc.drop_first(), h));
                        let k = choose|k: int|
                            0 <= k < acc.drop_first().len() && acc.drop_first()[k].stackable_hash
                                == h;
                        assert(acc[k + 1].stackable_hash == h);
                    }
                }
            }
            if has_hash(acc, h) {
                let i = choose|i: int| 0 <= i < acc.len() && acc[i].stackable_hash == h;
                if i == 0 {
                    assert(out[0].stackable_hash == h);
                } else {
                    assert(acc.drop_first()[i - 1].stackable_hash == h);
                    assert(has_hash(acc.drop_first(), h));
                    assert(has_hash(sub, h));
                    let k = choose|k: int| 0 <= k < sub.len() && sub[k].stackable_hash == h;
                    assert(out[k + 1].stackable_hash == h);
                }
            }
            if h == x.stackable_hash {
                assert(has_hash(spec_merge_one(acc.drop_first(), x), h));
                let k = choose|k: int| 0 <= k < sub.len() && sub[k].stackable_hash == h;
                assert(out[k + 1].stackable_hash == h);
            }
        }
        assert forall|i: int, j: int| 0 <= i < j < out.len() implies out[i].stackable_hash
            != out[j].stackable_hash by {
            if i == 0 {
                assert(out[j] == sub[j - 1]);
                assert(has_hash(sub, sub[j - 1].stackable_hash));
                if out[0].stackable_hash == sub[j - 1].stackable_hash {
                    assert(has_hash(acc, acc[0].stackable_hash) || acc[0].stackable_hash
                        == x.stackable_hash);
                    if has_hash(acc.drop_first(), acc[0].stackable_hash) {
                        let k = choose|k: int|
                            0 <= k < acc.drop_first().len() && acc.drop_first()[k].stackable_hash
                                == acc[0].stackable_hash;
                        assert(acc[k + 1].stackable_hash == acc[0].stackable_hash);
                        assert(false);
                    }
                    assert(has_hash(acc.drop_first(), sub[j - 1].stackable_hash) || sub[j
                        - 1].stackable_hash == x.stackable_hash);
                    assert(false);
                }
            } else {
                assert(out[i] == sub[i - 1] && out[j] == sub[j - 1]);
            }
        }
    }
}

pub proof fn lemma_merge_unique(acc: Seq<ItemV>, items: Seq<ItemV>)
    requires
        unique_hashes(acc),
    ensures
        unique_hashes(spec_merge(acc, items)),
    decreases items.len(),
{
    if items.len() == 0 {
    } else {
        lemma_merge_one_props(acc, items[0]);
        lemma_merge_unique(spec_merge_one(acc, items[0]), items.drop_first());
    }
}

/// Merging a stream splits at any point: merging `a + b` is merging `a`,
/// then `b` on top of the result.
pub proof fn lemma_merge_concat(acc: Seq<ItemV>, a: Seq<ItemV>, b: Seq<ItemV>)
    ensures
        spec_merge(acc, a + b) == spec_merge(spec_merge(acc, a), b),
    decreases a.len(),
{
    if a.len() == 0 {
        assert(a + b =~= b);
    } else {
        assert((a + b)[0] == a[0]);
        assert((a + b).drop_first() =~= a.drop_first() + b);
        lemma_merge_concat(spec_merge_one(acc, a[0]), a.drop_first(), b);
    }
}

/// Merging one more item is one more merge step.
pub proof fn lemma_merge_push(acc: Seq<ItemV>, items: Seq<ItemV>, x: ItemV)
    ensures
        spec_merge(acc, items.push(x)) == spec_merge_one(spec_merge(acc, items), x),
{
    lemma_merge_concat(acc, items, seq![x]);
    assert(items.push(x) =~= items + seq![x]);
    let m = spec_merge(acc, items);
    assert(spec_merge(m, seq![x]) == spec_merge(spec_merge_one(m, x), seq![x].drop_first()));
    assert(seq![x].drop_first() =~= Seq::<ItemV>::empty());
}

/// One more occupied slot appends its item to the occupied stream.
pub proof fn lemma_occupied_push(slots: Seq<SlotEntryV>, e: SlotEntryV)
    ensures
        spec_occupied(slots.push(e)) == spec_occupied(slots) + (match e.item {
            Some(it) => seq![it],
            None => Seq::<ItemV>::empty(),
        }),
    decreases slots.len(),
{
    let p = slots.push(e);
    if slots.len() == 0 {
        assert(p[0] == e);
        assert(p.drop_first() =~= Seq::<SlotEntryV>::empty());
        assert(spec_occupied(p.drop_first()) == Seq::<ItemV>::empty());
        match e.item {
            Some(it) => {
                assert(spec_occupied(p) == seq![it] + Seq::<ItemV>::empty());
                assert(seq![it] + Seq::<ItemV>::empty() =~= Seq::<ItemV>::empty() + seq![it]);
            },
            None => {
                assert(Seq::<ItemV>::empty() + Seq::<ItemV>::empty()
                    =~= Seq::<ItemV>::empty());
            },
        }
    } else {
        assert(p[0] == slots[0]);
        assert(p.drop_first() =~= slots.drop_first().push(e));
        lemma_occupied_push(slots.drop_first(), e);
        match slots[0].item {
            Some(it0) => {
                match e.item {
                    Some(it) => {
                        assert(seq![it0] + (spec_occupied(slots.drop_first()) + seq![it])
                            =~= (seq![it0] + spec_occupied(slots.drop_first())) + seq![it]);
                    },
                    None => {
                        assert(seq![it0] + (spec_occupied(slots.drop_first())
                            + Seq::<ItemV>::empty()) =~= (seq![it0] + spec_occupied(
                            slots.drop_first(),
                        )) + Seq::<ItemV>::empty());
                    },
                }
            },
            None => {},
        }
    }
}

/// One more occupied item appends what it emits.
pub proof fn lemma_emitted_push(items: Seq<ItemV>, x: ItemV, u: ShulkerUnpacking)
    ensures
        spec_all_emitted(items.push(x), u) == spec_all_emitted(items, u) + spec_emitted(x, u),
    decreases items.len(),
{
    let p = items.push(x);
    if items.len() == 0 {
        assert(p[0] == x);
        assert(p.drop_first() =~= Seq::<ItemV>::empty());
        assert(spec_all_emitted(p.drop_first(), u) == Seq::<ItemV>::empty());
        assert(spec_emitted(x, u) + Seq::<ItemV>::empty() =~= Seq::<ItemV>::empty()
            + spec_emitted(x, u));
    } else {
        assert(p[0] == items[0]);
        assert(p.drop_first() =~= items.drop_first().push(x));
        lemma_emitted_push(items.drop_first(), x, u);
        assert(spec_emitted(items[0], u) + (spec_all_emitted(items.drop_first(), u)
            + spec_emitted(x, u)) =~= (spec_emitted(items[0], u) + spec_all_emitted(
            items.drop_first(),
            u,
        )) + spec_emitted(x, u));
    }
}

/// One more occupied item extends the container mapping exactly when it is
/// homogeneous-full, its record overriding earlier ones.
pub proof fn lemma_full_map_push(items: Seq<ItemV>, x: ItemV)
    ensures
        spec_full_map(items.push(x)) == if spec_homog_full(x) {
            spec_full_map(items).insert(
                x.shulker_data->Some_0.contained_items[0].stackable_hash,
                x.stackable_hash,
            )
        } else {
            spec_full_map(items)
        },
{
    let p = items.push(x);
    assert(p.drop_last() =~= items);
    assert(p.last() == x);
}

/// The mapping an association list stands for: later pairs override earlier
/// ones.
pub open spec fn assoc_map(s: Seq<(u64, u64)>) -> Map<u64, u64>
    decreases s.len(),
{
    if s.len() == 0 {
        Map::empty()
    } else {
        assoc_map(s.drop_last()).insert(s.last().0, s.last().1)
    }
}

pub proof fn lemma_assoc_map_push(s: Seq<(u64, u64)>, p: (u64, u64))
    ensures
        assoc_map(s.push(p)) == assoc_map(s).insert(p.0, p.1),
{
    assert(s.push(p).drop_last() =~= s);
    assert(s.push(p).last() == p);
}

/// Saturating addition of item counts.
fn sat_add_u32_exec(a: u32, b: u32) -> (r: u32)
    ensures
        r == sat_add_u32(a, b),
{
    if a > u32::MAX - b {
        u32::MAX
    } else {
        a + b
    }
}

/// Merges one item into the accumulated listing.
fn merge_item(out: &mut Vec<Item>, x: &Item)
    ensures
        item_views_of(final(out)@) == spec_merge_one(
            item_views_of(old(out)@),
            item_view(*x),
        ),
{
    let ghost acc = item_views_of(old(out)@);
    let ghost xv = item_view(*x);
    proof {
        assert(acc.skip(0) =~= acc);
        assert(acc.take(0) =~= Seq::<ItemV>::empty());
    }
    let mut i: usize = 0;
    while i < out.len()
        invariant
            0 <= i <= out@.len(),
            acc == item_views_of(out@),
            acc == item_views_of(old(out)@),
            acc.len() == out@.len(),
            xv == item_view(*x),
            spec_merge_one(acc, xv) == acc.take(i as int) + spec_merge_one(
                acc.skip(i as int),
                xv,
            ),
        decreases out@.len() - i,
    {
        proof {
            assert(acc.skip(i as int)[0] == acc[i as int]);
        }
        if out[i].stackable_hash == x.stackable_hash {
            let mut c = out[i].deep_clone();
            c.count = sat_add_u32_exec(c.count, x.count);
            proof {
                assert(item_view(c) == merged_with(acc[i as int], xv.count));
            }
            out.set(i, c);
            proof {
                assert(acc.skip(i as int).drop_first() =~= acc.skip(i + 1));
                assert(spec_merge_one(acc.skip(i as int), xv) == seq![
                    merged_with(acc[i as int], xv.count),
                ] + acc.skip(i + 1));
                assert(item_views_of(out@) =~= acc.take(i as int) + (seq![
                    merged_with(acc[i as int], xv.count),
                ] + acc.skip(i + 1)));
            }
            return ;
        }
        proof {
            assert(acc.skip(i as int).drop_first() =~= acc.skip(i + 1));
            assert(spec_merge_one(acc.skip(i as int), xv) == seq![acc[i as int]]
                + spec_merge_one(acc.skip(i + 1), xv));
            assert(acc.take(i as int) + (seq![acc[i as int]] + spec_merge_one(
                acc.skip(i + 1),
                xv,
            )) =~= acc.take(i + 1) + spec_merge_one(acc.skip(i + 1), xv));
        }
        i += 1;
    }
    proof {
        assert(acc.skip(i as int).len() == 0);
        assert(spec_merge_one(acc.skip(i as int), xv) == seq![xv]);
        assert(acc.take(i as int) =~= acc);
    }
    let c = x.deep_clone();
    out.push(c);
    proof {
        assert(item_views_of(out@) =~= acc + seq![xv]);
    }
}

/// Stamps the single entry of the given kind, if one is present, with the
/// container hash.
fn apply_tag(out: &mut Vec<Item>, ih: u64, sh: u64)
    requires
        unique_hashes(item_views_of(old(out)@)),
    ensures
        final(out)@.len() == old(out)@.len(),
        forall|q: int|
            0 <= q < old(out)@.len() ==> item_views_of(final(out)@)[q] == (
            if item_views_of(old(out)@)[q].stackable_hash == ih {
                with_tag(item_views_of(old(out)@)[q], sh)
            } else {
                item_views_of(old(out)@)[q]
            }),
{
    let ghost before = item_views_of(old(out)@);
    let mut i: usize = 0;
    while i < out.len()
        invariant
            0 <= i <= out@.len(),
            before == item_views_of(out@),
            before == item_views_of(old(out)@),
            before.len() == out@.len(),
            unique_hashes(before),
            forall|r: int| 0 <= r < i ==> before[r].stackable_hash != ih,
        decreases out@.len() - i,
    {
        if out[i].stackable_hash == ih {
            let mut c = out[i].deep_clone();
            c.full_shulker_stackable_hash = Some(sh);
            proof {
                assert(item_view(c) == with_tag(before[i as int], sh));
            }
            out.set(i, c);
            proof {
                assert forall|q: int| 0 <= q < before.len() implies item_views_of(out@)[q] == (
                    if before[q].stackable_hash == ih {
                        with_tag(before[q], sh)
                    } else {
                        before[q]
                    }) by {
                    if q != i {
                        assert(item_views_of(out@)[q] == before[q]);
                        if before[q].stackable_hash == ih {
                            assert(before[i as int].stackable_hash == before[q].stackable_hash);
                            assert(false);
                        }
                    }
                }
            }
            return ;
        }
        i += 1;
    }
}

impl InventoryState {
    /// One aggregation pass over every slot of every known location: occupied
    /// slots are merged by stackable hash under the unpacking policy, and
    /// entries whose kind is wrapped by homogeneous-full containers carry the
    /// container's hash as their full-container tag.
    pub fn get_listing(&self, options: InventoryListingOptions) -> (r: Vec<Item>)
        ensures
            item_views_of(r@) == spec_listing(
                slots_view(inv_entries(*self)),
                options.shulker_unpacking,
            ),
    {
        let slots = self.iter_slots();
        let ghost svs = slot_entry_views(slots@);
        let u = options.shulker_unpacking;
        let mut merged: Vec<Item> = Vec::new();
        let mut full_pairs: Vec<(u64, u64)> = Vec::new();
        let mut unpacked: Vec<u64> = Vec::new();
        proof {
            assert(svs.take(0) =~= Seq::<SlotEntryV>::empty());
            assert(item_views_of(merged@) =~= Seq::<ItemV>::empty());
            assert(full_pairs@.take(0) =~= Seq::<(u64, u64)>::empty());
            assert(assoc_map(full_pairs@) =~= spec_full_map(
                spec_occupied(svs.take(0)),
            ));
            assert(unpacked@ =~= spec_unpacked_hashes(spec_occupied(svs.take(0)), u));
        }
        let mut k: usize = 0;
        while k < slots.len()
            invariant
                0 <= k <= slots@.len(),
                svs == slot_entry_views(slots@),
                svs.len() == slots@.len(),
                item_views_of(merged@) == spec_merge(
                    Seq::empty(),
                    spec_all_emitted(spec_occupied(svs.take(k as int)), u),
                ),
                assoc_map(full_pairs@) == spec_full_map(spec_occupied(svs.take(k as int))),
                unpacked@ == spec_unpacked_hashes(spec_occupied(svs.take(k as int)), u),
            decreases slots@.len() - k,
        {
            let ghost occ_k = spec_occupied(svs.take(k as int));
            proof {
                assert(svs.take(k + 1) =~= svs.take(k as int).push(svs[k as int]));
                lemma_occupied_push(svs.take(k as int), svs[k as int]);
            }
            match &slots[k].item {
                None => {
                    proof {
                        assert(spec_occupied(svs.take(k + 1)) =~= occ_k);
                    }
                },
                Some(it) => {
                    let ghost iv = item_view(*it);
                    proof {
                        assert(svs[k as int].item == Some(iv));
                        assert(spec_occupied(svs.take(k + 1)) == occ_k + seq![iv]);
                        assert(occ_k + seq![iv] =~= occ_k.push(iv));
                        lemma_emitted_push(occ_k, iv, u);
                        lemma_full_map_push(occ_k, iv);
                        lemma_unpacked_push(occ_k, iv, u);
                    }
                    // Record the homogeneous-full mapping, whether or not the
                    // container is unpacked.
                    match &it.shulker_data {
                        Some(sd) => {
                            let n = sd.contained_items.len();
                            if n > 0 {
                                let ghost cvs = item_views_of(sd.contained_items@);
                                let first_hash = sd.contained_items[0].stackable_hash;
                                proof {
                                    assert(cvs[0] == item_view(sd.contained_items@[0]));
                                }
                                let mut all_same = true;
                                let mut all_full = true;
                                let mut j: usize = 0;
                                while j < n
                                    invariant
                                        0 <= j <= n,
                                        n == sd.contained_items@.len(),
                                        cvs == item_views_of(sd.contained_items@),
                                        cvs.len() == n,
                                        n > 0,
                                        first_hash == cvs[0].stackable_hash,
                                        all_same == (forall|m: int|
                                            0 <= m < j ==> #[trigger] cvs[m].stackable_hash
                                                == cvs[0].stackable_hash),
                                        all_full == (forall|m: int|
                                            0 <= m < j ==> #[trigger] cvs[m].count
                                                == cvs[m].stack_size),
                                    decreases n - j,
                                {
                                    proof {
                                        assert(cvs[j as int] == item_view(
                                            sd.contained_items@[j as int],
                                        ));
                                    }
                                    let same_here = sd.contained_items[j].stackable_hash
                                        == first_hash;
                                    let full_here = sd.contained_items[j].count
                                        == sd.contained_items[j].stack_size;
                                    proof {
                                        assert(same_here == (cvs[j as int].stackable_hash
                                            == cvs[0].stackable_hash));
                                        assert(full_here == (cvs[j as int].count
                                            == cvs[j as int].stack_size));
                                    }
                                    all_same = all_same && same_here;
                                    all_full = all_full && full_here;
                                    j += 1;
                                }
                                if all_same && all_full {
                                    proof {
                                        assert(spec_homog_full(iv));
                                        lemma_assoc_map_push(
                                            full_pairs@,
                                            (first_hash, it.stackable_hash),
                                        );
                                    }
                                    full_pairs.push((first_hash, it.stackable_hash));
                                } else {
                                    proof {
                                        assert(!spec_homog_full(iv));
                                    }
                                }
                            } else {
                                proof {
                                    assert(!spec_homog_full(iv));
                                }
                            }
                        },
                        None => {
                            proof {
                                assert(!spec_homog_full(iv));
                            }
                        },
                    }
                    // Merge what this slot emits.
                    let ghost m_k = spec_merge(Seq::empty(), spec_all_emitted(occ_k, u));
                    proof {
                        lemma_merge_concat(
                            Seq::empty(),
                            spec_all_emitted(occ_k, u),
                            spec_emitted(iv, u),
                        );
                    }
                    let mut unpack = false;
                    match &it.shulker_data {
                        Some(sd) => {
                            let non_empty = sd.contained_items.len() > 0;
                            let by_policy = match u {
                                ShulkerUnpacking::FullListing => true,
                                ShulkerUnpacking::UnnamedOnly => sd.name.is_none(),
                                ShulkerUnpacking::NoUnpacking => false,
                            };
                            unpack = non_empty && by_policy;
                        },
                        None => {},
                    }
                    proof {
                        assert(unpack == spec_should_unpack(iv, u));
                    }
                    if unpack {
                        match &it.shulker_data {
                            Some(sd) => {
                                let ghost evs = spec_emitted(iv, u);
                                let ghost up_k = spec_unpacked_hashes(occ_k, u);
                                proof {
                                    assert(evs == item_views_of(sd.contained_items@));
                                    assert(evs.take(0) =~= Seq::<ItemV>::empty());
                                    assert(hashes_of(evs).take(0) =~= Seq::<u64>::empty());
                                    assert(unpacked@ =~= up_k + hashes_of(evs).take(0));
                                }
                                let mut j: usize = 0;
                                while j < sd.contained_items.len()
                                    invariant
                                        0 <= j <= sd.contained_items@.len(),
                                        evs == item_views_of(sd.contained_items@),
                                        evs.len() == sd.contained_items@.len(),
                                        unpacked@ == up_k + hashes_of(evs).take(j as int),
                                    decreases sd.contained_items@.len() - j,
                                {
                                    proof {
                                        assert(evs[j as int] == item_view(
                                            sd.contained_items@[j as int],
                                        ));
                                        assert(hashes_of(evs)[j as int] == evs[
                                            j as int
                                        ].stackable_hash);
                                        assert(hashes_of(evs).take(j + 1) =~= hashes_of(
                                            evs,
                                        ).take(j as int).push(hashes_of(evs)[j as int]));
                                    }
                                    let ghost old_up = unpacked@;
                                    unpacked.push(sd.contained_items[j].stackable_hash);
                                    proof {
                                        assert(unpacked@ =~= up_k + hashes_of(evs).take(
                                            j + 1,
                                        ));
                                    }
                                    j += 1;
                                }
                                proof {
                                    assert(hashes_of(evs).take(evs.len() as int)
                                        =~= hashes_of(evs));
                                    assert(hashes_of(evs) =~= hashes_of(
                                        iv.shulker_data->Some_0.contained_items,
                                    ));
                                    assert(unpacked@ == spec_unpacked_hashes(
                                        spec_occupied(svs.take(k + 1)),
                                        u,
                                    ));
                                }
                                let mut j: usize = 0;
                                while j < sd.contained_items.len()
                                    invariant
                                        0 <= j <= sd.contained_items@.len(),
                                        evs == item_views_of(sd.contained_items@),
                                        evs.len() == sd.contained_items@.len(),
                                        item_views_of(merged@) == spec_merge(
                                            m_k,
                                            evs.take(j as int),
                                        ),
                                    decreases sd.contained_items@.len() - j,
                                {
                                    proof {
                                        assert(evs.take(j + 1) =~= evs.take(
                                            j as int,
                                        ).push(evs[j as int]));
                                        lemma_merge_push(m_k, evs.take(j as int), evs[j as int]);
                                    }
                                    merge_item(&mut merged, &sd.contained_items[j]);
                                    j += 1;
                                }
                                proof {
                                    assert(evs.take(evs.len() as int) =~= evs);
                                }
                            },
                            None => {
                                proof {
                                    assert(false);
                                }
                            },
                        }
                    } else {
                        proof {
                            assert(spec_emitted(iv, u) =~= seq![iv]);
                            assert(Seq::<ItemV>::empty().push(iv) =~= seq![iv]);
                            lemma_merge_push(m_k, Seq::<ItemV>::empty(), iv);
                            assert(spec_merge(m_k, Seq::<ItemV>::empty()) == m_k);
                            assert(unpacked@ =~= spec_unpacked_hashes(occ_k, u)
                                + Seq::<u64>::empty());
                        }
                        merge_item(&mut merged, it);
                    }
                },
            }
            k += 1;
        }
        proof {
            assert(svs.take(svs.len() as int) =~= svs);
            lemma_merge_unique(Seq::empty(), spec_all_emitted(spec_occupied(svs), u));
        }
        // Stamp the recorded full-container tags, but only on kinds that
        // unpacking fed into the listing.
        let ghost m_final = spec_merge(Seq::empty(), spec_all_emitted(spec_occupied(svs), u));
        let ghost fed = unpacked@;
        proof {
            assert(fed == spec_unpacked_hashes(spec_occupied(svs), u));
            assert(full_pairs@.take(0) =~= Seq::<(u64, u64)>::empty());
            assert(spec_apply_tags(m_final, assoc_map(full_pairs@.take(0)), fed) =~= m_final);
        }
        let mut p: usize = 0;
        while p < full_pairs.len()
            invariant
                0 <= p <= full_pairs@.len(),
                unique_hashes(m_final),
                fed == unpacked@,
                item_views_of(merged@) == spec_apply_tags(
                    m_final,
                    assoc_map(full_pairs@.take(p as int)),
                    fed,
                ),
                merged@.len() == m_final.len(),
                forall|i: int|
                    0 <= i < m_final.len() ==> #[trigger] item_views_of(
                        merged@,
                    )[i].stackable_hash == m_final[i].stackable_hash,
            decreases full_pairs@.len() - p,
        {
            let ghost m_before = assoc_map(full_pairs@.take(p as int));
            let ih = full_pairs[p].0;
            let sh = full_pairs[p].1;
            proof {
                assert(full_pairs@.take(p + 1) =~= full_pairs@.take(p as int).push(
                    full_pairs@[p as int],
                ));
                lemma_assoc_map_push(full_pairs@.take(p as int), full_pairs@[p as int]);
            }
            let ghost before_views = item_views_of(merged@);
            if contains_hash(&unpacked, ih) {
                proof {
                    assert(unique_hashes(before_views)) by {
                        assert(forall|a: int, b: int|
                            0 <= a < b < m_final.len() ==> before_views[a].stackable_hash
                                == m_final[a].stackable_hash && before_views[b].stackable_hash
                                == m_final[b].stackable_hash);
                    }
                }
                apply_tag(&mut merged, ih, sh);
                proof {
                    let after_views = item_views_of(merged@);
                    let target = spec_apply_tags(m_final, m_before.insert(ih, sh), fed);
                    assert forall|q: int| 0 <= q < m_final.len() implies after_views[q]
                        == target[q] by {
                        assert(before_views[q] == spec_apply_tags(m_final, m_before, fed)[q]);
                        assert(before_views[q].stackable_hash == m_final[q].stackable_hash);
                        if m_final[q].stackable_hash == ih {
                            assert(after_views[q] == with_tag(before_views[q], sh));
                            assert(with_tag(before_views[q], sh) == with_tag(m_final[q], sh));
                        } else {
                            assert(after_views[q] == before_views[q]);
                            assert(m_before.insert(ih, sh).dom().contains(
                                m_final[q].stackable_hash,
                            ) == m_before.dom().contains(m_final[q].stackable_hash));
                        }
                    }
                    assert(after_views =~= target);
                }
            } else {
                proof {
                    let target = spec_apply_tags(m_final, m_before.insert(ih, sh), fed);
                    assert forall|q: int| 0 <= q < m_final.len() implies before_views[q]
                        == target[q] by {
                        assert(before_views[q] == spec_apply_tags(m_final, m_before, fed)[q]);
                        if m_final[q].stackable_hash == ih {
                            assert(!fed.contains(m_final[q].stackable_hash));
                        } else {
                            assert(m_before.insert(ih, sh).dom().contains(
                                m_final[q].stackable_hash,
                            ) == m_before.dom().contains(m_final[q].stackable_hash));
                        }
                    }
                    assert(before_views =~= target);
                }
            }
            p += 1;
        }
        proof {
            assert(full_pairs@.take(full_pairs@.len() as int) =~= full_pairs@);
        }
        merged
    }
}

/// With unpacking disabled, no container is ever unpacked: every occupied
/// slot contributes itself as a single opaque entry, whatever its naming or
/// fullness.
pub proof fn lemma_no_unpacking_emits_items(items: Seq<ItemV>)
    ensures
        spec_all_emitted(items, ShulkerUnpacking::NoUnpacking) == items,
    decreases items.len(),
{
    if items.len() == 0 {
    } else {
        lemma_no_unpacking_emits_items(items.drop_first());
        assert(!spec_should_unpack(items[0], ShulkerUnpacking::NoUnpacking));
        assert(spec_emitted(items[0], ShulkerUnpacking::NoUnpacking) == seq![items[0]]);
        assert(seq![items[0]] + items.drop_first() =~= items);
    }
}

/// Under the unnamed-only policy a container with a custom name is never
/// unpacked, and an unnamed one is treated exactly as under the full policy.
pub proof fn lemma_unnamed_only_policy(it: ItemV)
    ensures
        (it.shulker_data matches Some(sd) && sd.name is Some) ==> spec_emitted(
            it,
            ShulkerUnpacking::UnnamedOnly,
        ) == seq![it],
        (it.shulker_data matches Some(sd) && sd.name is None) ==> spec_emitted(
            it,
            ShulkerUnpacking::UnnamedOnly,
        ) == spec_emitted(it, ShulkerUnpacking::FullListing),
{
}

/// With unpacking disabled nothing is fed by unpacking, so no entry is ever
/// stamped: the listing is exactly the merge of the opaque slot items.
pub proof fn lemma_no_unpacking_adds_no_tags(slots: Seq<SlotEntryV>)
    ensures
        spec_unpacked_hashes(spec_occupied(slots), ShulkerUnpacking::NoUnpacking) == Seq::<
            u64,
        >::empty(),
        spec_listing(slots, ShulkerUnpacking::NoUnpacking) == spec_merge(
            Seq::empty(),
            spec_occupied(slots),
        ),
{
    let u = ShulkerUnpacking::NoUnpacking;
    let occ = spec_occupied(slots);
    lemma_unpacked_empty(occ);
    lemma_no_unpacking_emits_items(occ);
    let merged = spec_merge(Seq::empty(), occ);
    assert forall|i: int| 0 <= i < merged.len() implies spec_listing(slots, u)[i]
        == merged[i] by {
        assert(!Seq::<u64>::empty().contains(merged[i].stackable_hash));
    }
    assert(spec_listing(slots, u) =~= merged);
}

proof fn lemma_unpacked_empty(items: Seq<ItemV>)
    ensures
        spec_unpacked_hashes(items, ShulkerUnpacking::NoUnpacking) == Seq::<u64>::empty(),
    decreases items.len(),
{
    if items.len() > 0 {
        lemma_unpacked_empty(items.drop_first());
        assert(!spec_should_unpack(items[0], ShulkerUnpacking::NoUnpacking));
        assert(Seq::<u64>::empty() + Seq::<u64>::empty() =~= Seq::<u64>::empty());
    }
}

/// Under the full policy every recorded container kind was fed by unpacking:
/// a homogeneous-full container is non-empty, so the policy unpacks it.
proof fn lemma_full_map_fed(items: Seq<ItemV>)
    ensures
        forall|h: u64|
            spec_full_map(items).dom().contains(h) ==> spec_unpacked_hashes(
                items,
                ShulkerUnpacking::FullListing,
            ).contains(h),
    decreases items.len(),
{
    let u = ShulkerUnpacking::FullListing;
    if items.len() == 0 {
    } else {
        lemma_full_map_fed(items.drop_last());
        let x = items.last();
        assert(items =~= items.drop_last().push(x));
        lemma_unpacked_push(items.drop_last(), x, u);
        let fed_head = spec_unpacked_hashes(items.drop_last(), u);
        let fed = spec_unpacked_hashes(items, u);
        let tail = if spec_should_unpack(x, u) {
            hashes_of(x.shulker_data->Some_0.contained_items)
        } else {
            Seq::<u64>::empty()
        };
        assert(spec_unpacked_hashes(items.drop_last().push(x), u) == fed_head + tail);
        assert forall|h: u64| spec_full_map(items).dom().contains(h) implies fed.contains(
            h,
        ) by {
            if spec_homog_full(x) && h == x.shulker_data->Some_0.contained_items[0].stackable_hash {
                assert(spec_should_unpack(x, u));
                assert(tail[0] == h);
                assert(fed[fed_head.len() as int] == h);
            } else {
                assert(spec_full_map(items.drop_last()).dom().contains(h));
                assert(fed_head.contains(h));
                let q = choose|q: int| 0 <= q < fed_head.len() && fed_head[q] == h;
                assert(fed[q] == h);
            }
        }
    }
}

/// Under the full policy, every listing entry of a kind that some
/// homogeneous-full container wraps carries that mapping's container hash
/// (the last-processed container winning) as its full-container tag.
pub proof fn lemma_full_listing_tags(slots: Seq<SlotEntryV>)
    ensures
        forall|i: int|
            0 <= i < spec_listing(slots, ShulkerUnpacking::FullListing).len() ==> (spec_full_map(
                spec_occupied(slots),
            ).dom().contains(
                #[trigger] spec_listing(slots, ShulkerUnpacking::FullListing)[i].stackable_hash,
            ) ==> spec_listing(slots, ShulkerUnpacking::FullListing)[i].full_shulker_stackable_hash
                == Some(
                spec_full_map(spec_occupied(slots))[spec_listing(
                    slots,
                    ShulkerUnpacking::FullListing,
                )[i].stackable_hash],
            )),
{
    let u = ShulkerUnpacking::FullListing;
    let occ = spec_occupied(slots);
    lemma_full_map_fed(occ);
    let merged = spec_merge(Seq::empty(), spec_all_emitted(occ, u));
    let out = spec_listing(slots, u);
    assert forall|i: int| 0 <= i < out.len() implies (spec_full_map(occ).dom().contains(
        #[trigger] out[i].stackable_hash,
    ) ==> out[i].full_shulker_stackable_hash == Some(
        spec_full_map(occ)[out[i].stackable_hash],
    )) by {
        assert(out[i].stackable_hash == merged[i].stackable_hash);
        if spec_full_map(occ).dom().contains(merged[i].stackable_hash) {
            assert(spec_unpacked_hashes(occ, u).contains(merged[i].stackable_hash));
            assert(out[i] == with_tag(merged[i], spec_full_map(occ)[merged[i].stackable_hash]));
        }
    }
}

/// Sum of the counts the source items offer for one kind: an unpacked
/// container offers its contained counts, anything else its own count.
pub open spec fn spec_source_count(items: Seq<ItemV>, u: ShulkerUnpacking, h: u64) -> int
    decreases items.len(),
{
    if items.len() == 0 {
        0int
    } else {
        (if spec_should_unpack(items[0], u) {
            count_sum(items[0].shulker_data->Some_0.contained_items, h)
        } else if items[0].stackable_hash == h {
            items[0].count as int
        } else {
            0int
        }) + spec_source_count(items.drop_first(), u, h)
    }
}

proof fn lemma_count_sum_concat(a: Seq<ItemV>, b: Seq<ItemV>, h: u64)
    ensures
        count_sum(a + b, h) == count_sum(a, h) + count_sum(b, h),
    decreases a.len(),
{
    if a.len() == 0 {
        assert(a + b =~= b);
    } else {
        assert((a + b)[0] == a[0]);
        assert((a + b).drop_first() =~= a.drop_first() + b);
        lemma_count_sum_concat(a.drop_first(), b, h);
    }
}

/// What the emitted stream carries for one kind is exactly what the source
/// items offer.
pub proof fn lemma_emitted_source_count(items: Seq<ItemV>, u: ShulkerUnpacking, h: u64)
    ensures
        count_sum(spec_all_emitted(items, u), h) == spec_source_count(items, u, h),
    decreases items.len(),
{
    if items.len() == 0 {
    } else {
        lemma_emitted_source_count(items.drop_first(), u, h);
        lemma_count_sum_concat(
            spec_emitted(items[0], u),
            spec_all_emitted(items.drop_first(), u),
            h,
        );
        if !spec_should_unpack(items[0], u) {
            let e = spec_emitted(items[0], u);
            assert(e == seq![items[0]]);
            assert(e.drop_first() =~= Seq::<ItemV>::empty());
            assert(count_sum(e.drop_first(), h) == 0);
        }
    }
}

/// Sum of the counts carried by entries of one kind.
pub open spec fn count_sum(s: Seq<ItemV>, h: u64) -> int
    decreases s.len(),
{
    if s.len() == 0 {
        0int
    } else {
        (if s[0].stackable_hash == h {
            s[0].count as int
        } else {
            0int
        }) + count_sum(s.drop_first(), h)
    }
}

pub proof fn lemma_count_sum_nonneg(s: Seq<ItemV>, h: u64)
    ensures
        count_sum(s, h) >= 0,
    decreases s.len(),
{
    if s.len() > 0 {
        lemma_count_sum_nonneg(s.drop_first(), h);
    }
}

proof fn lemma_merge_one_count(acc: Seq<ItemV>, x: ItemV, h: u64)
    requires
        x.stackable_hash == h ==> count_sum(acc, h) + x.count <= u32::MAX,
    ensures
        count_sum(spec_merge_one(acc, x), h) == count_sum(acc, h) + (if x.stackable_hash == h {
            x.count as int
        } else {
            0int
        }),
    decreases acc.len(),
{
    let out = spec_merge_one(acc, x);
    if acc.len() == 0 {
        assert(out.drop_first() =~= Seq::<ItemV>::empty());
        assert(count_sum(out.drop_first(), h) == 0);
    } else if acc[0].stackable_hash == x.stackable_hash {
        lemma_count_sum_nonneg(acc.drop_first(), h);
        assert(out[0] == merged_with(acc[0], x.count));
        assert(out.drop_first() =~= acc.drop_first());
    } else {
        lemma_count_sum_nonneg(acc.drop_first(), h);
        lemma_merge_one_count(acc.drop_first(), x, h);
        assert(out[0] == acc[0]);
        assert(out.drop_first() =~= spec_merge_one(acc.drop_first(), x));
    }
}

proof fn lemma_merge_count(acc: Seq<ItemV>, items: Seq<ItemV>, h: u64)
    requires
        count_sum(acc, h) + count_sum(items, h) <= u32::MAX,
        count_sum(acc, h) >= 0,
    ensures
        count_sum(spec_merge(acc, items), h) == count_sum(acc, h) + count_sum(items, h),
    decreases items.len(),
{
    if items.len() == 0 {
    } else {
        lemma_count_sum_nonneg(items.drop_first(), h);
        lemma_merge_one_count(acc, items[0], h);
        let acc2 = spec_merge_one(acc, items[0]);
        lemma_merge_count(acc2, items.drop_first(), h);
    }
}

proof fn lemma_apply_tags_counts(s: Seq<ItemV>, m: Map<u64, u64>, fed: Seq<u64>, h: u64)
    ensures
        count_sum(spec_apply_tags(s, m, fed), h) == count_sum(s, h),
    decreases s.len(),
{
    if s.len() == 0 {
    } else {
        lemma_apply_tags_counts(s.drop_first(), m, fed, h);
        let t = spec_apply_tags(s, m, fed);
        assert(t[0].stackable_hash == s[0].stackable_hash && t[0].count == s[0].count);
        assert(t.drop_first() =~= spec_apply_tags(s.drop_first(), m, fed));
    }
}

/// The listing carries at most one entry per kind.
pub proof fn lemma_listing_unique(slots: Seq<SlotEntryV>, u: ShulkerUnpacking)
    ensures
        unique_hashes(spec_listing(slots, u)),
{
    let occ = spec_occupied(slots);
    let merged = spec_merge(Seq::empty(), spec_all_emitted(occ, u));
    lemma_merge_unique(Seq::empty(), spec_all_emitted(occ, u));
    let out = spec_listing(slots, u);
    assert forall|i: int, j: int| 0 <= i < j < out.len() implies out[i].stackable_hash
        != out[j].stackable_hash by {
        assert(out[i].stackable_hash == merged[i].stackable_hash);
        assert(out[j].stackable_hash == merged[j].stackable_hash);
    }
}

/// Items of one kind are merged into a single entry whose count is the sum
/// of the source counts — the unpacked containers' contained counts plus the
/// opaque items' own counts — wherever their slots were.
pub proof fn lemma_listing_merges_counts(slots: Seq<SlotEntryV>, u: ShulkerUnpacking, h: u64)
    requires
        count_sum(spec_all_emitted(spec_occupied(slots), u), h) <= u32::MAX,
    ensures
        count_sum(spec_listing(slots, u), h) == count_sum(
            spec_all_emitted(spec_occupied(slots), u),
            h,
        ),
        count_sum(spec_listing(slots, u), h) == spec_source_count(spec_occupied(slots), u, h),
        unique_hashes(spec_listing(slots, u)),
{
    let occ = spec_occupied(slots);
    let emitted = spec_all_emitted(occ, u);
    lemma_emitted_source_count(occ, u, h);
    lemma_count_sum_nonneg(emitted, h);
    assert(count_sum(Seq::<ItemV>::empty(), h) == 0);
    lemma_merge_count(Seq::empty(), emitted, h);
    lemma_apply_tags_counts(
        spec_merge(Seq::empty(), emitted),
        spec_full_map(occ),
        spec_unpacked_hashes(occ, u),
        h,
    );
    lemma_listing_unique(slots, u);
}

/// Every entry of a merge comes from the accumulated listing or the stream.
proof fn lemma_merge_hashes(acc: Seq<ItemV>, items: Seq<ItemV>)
    requires
        unique_hashes(acc),
    ensures
        forall|q: int|
            0 <= q < spec_merge(acc, items).len() ==> has_hash(
                acc,
                #[trigger] spec_merge(acc, items)[q].stackable_hash,
            ) || exists|p: int|
                0 <= p < items.len() && items[p].stackable_hash == spec_merge(
                    acc,
                    items,
                )[q].stackable_hash,
    decreases items.len(),
{
    if items.len() == 0 {
        let out = spec_merge(acc, items);
        assert forall|q: int| 0 <= q < out.len() implies has_hash(
            acc,
            #[trigger] out[q].stackable_hash,
        ) || exists|p: int|
            0 <= p < items.len() && items[p].stackable_hash == out[q].stackable_hash by {
            assert(out[q] == acc[q]);
            assert(acc[q].stackable_hash == out[q].stackable_hash);
        }
    } else {
        lemma_merge_one_props(acc, items[0]);
        let acc2 = spec_merge_one(acc, items[0]);
        lemma_merge_hashes(acc2, items.drop_first());
        let out = spec_merge(acc, items);
        assert(out == spec_merge(acc2, items.drop_first()));
        assert forall|q: int| 0 <= q < out.len() implies has_hash(
            acc,
            #[trigger] out[q].stackable_hash,
        ) || exists|p: int|
            0 <= p < items.len() && items[p].stackable_hash == out[q].stackable_hash by {
            let hh = out[q].stackable_hash;
            assert(has_hash(acc2, hh) || exists|p: int|
                0 <= p < items.drop_first().len() && items.drop_first()[p].stackable_hash == hh);
            if has_hash(acc2, hh) {
                assert(has_hash(spec_merge_one(acc, items[0]), hh));
                if !has_hash(acc, hh) {
                    assert(hh == items[0].stackable_hash);
                    assert(items[0].stackable_hash == hh);
                }
            } else {
                let p = choose|p: int|
                    0 <= p < items.drop_first().len() && items.drop_first()[p].stackable_hash
                        == hh;
                assert(items[p + 1].stackable_hash == hh);
            }
        }
    }
}

/// A kind present in the stream stays present through merging.
proof fn lemma_merge_keeps_hash(acc: Seq<ItemV>, items: Seq<ItemV>, h: u64)
    requires
        unique_hashes(acc),
        has_hash(acc, h) || (items.len() > 0 && items[0].stackable_hash == h),
    ensures
        has_hash(spec_merge(acc, items), h),
    decreases items.len(),
{
    if items.len() == 0 {
    } else {
        lemma_merge_one_props(acc, items[0]);
        let acc2 = spec_merge_one(acc, items[0]);
        assert(has_hash(acc2, h) || h == items[0].stackable_hash || has_hash(acc, h));
        lemma_merge_keeps_hash(acc2, items.drop_first(), h);
    }
}

/// One homogeneous-full container, fully unpacked: every listing entry is of
/// the contained kind and is tagged with the container's own stackable hash.
pub proof fn lemma_full_container_tagging(slots: Seq<SlotEntryV>, c: ItemV)
    requires
        spec_occupied(slots) == seq![c],
        spec_homog_full(c),
    ensures
        spec_listing(slots, ShulkerUnpacking::FullListing).len() >= 1,
        forall|i: int|
            0 <= i < spec_listing(slots, ShulkerUnpacking::FullListing).len()
                ==> #[trigger] spec_listing(slots, ShulkerUnpacking::FullListing)[i].stackable_hash
                == c.shulker_data->Some_0.contained_items[0].stackable_hash && spec_listing(
                slots,
                ShulkerUnpacking::FullListing,
            )[i].full_shulker_stackable_hash == Some(c.stackable_hash),
{
    let u = ShulkerUnpacking::FullListing;
    let occ = spec_occupied(slots);
    let inner = c.shulker_data->Some_0.contained_items;
    let h0 = inner[0].stackable_hash;
    assert(occ[0] == c);
    assert(spec_should_unpack(c, u));
    assert(occ.drop_first() =~= Seq::<ItemV>::empty());
    assert(spec_all_emitted(occ.drop_first(), u) == Seq::<ItemV>::empty());
    assert(spec_all_emitted(occ, u) == inner + Seq::<ItemV>::empty());
    assert(inner + Seq::<ItemV>::empty() =~= inner);
    assert(occ.drop_last() =~= Seq::<ItemV>::empty());
    assert(occ.last() == c);
    let m = spec_full_map(occ);
    assert(spec_full_map(occ.drop_last()) == Map::<u64, u64>::empty());
    assert(m == Map::<u64, u64>::empty().insert(h0, c.stackable_hash));
    let fed = spec_unpacked_hashes(occ, u);
    assert(spec_unpacked_hashes(occ.drop_first(), u) == Seq::<u64>::empty());
    assert(fed == hashes_of(inner) + Seq::<u64>::empty());
    assert(fed.contains(h0)) by {
        assert(fed[0] == hashes_of(inner)[0]);
        assert(hashes_of(inner)[0] == h0);
    }
    let merged = spec_merge(Seq::empty(), inner);
    lemma_merge_unique(Seq::empty(), inner);
    lemma_merge_hashes(Seq::empty(), inner);
    lemma_merge_one_props(Seq::empty(), inner[0]);
    assert(has_hash(spec_merge_one(Seq::empty(), inner[0]), h0));
    lemma_merge_keeps_hash(Seq::empty(), inner, h0);
    assert(merged.len() >= 1) by {
        assert(has_hash(merged, h0));
        let q = choose|q: int| 0 <= q < merged.len() && merged[q].stackable_hash == h0;
    }
    let out = spec_listing(slots, u);
    assert(out.len() == merged.len());
    assert forall|i: int| 0 <= i < out.len() implies #[trigger] out[i].stackable_hash == h0
        && out[i].full_shulker_stackable_hash == Some(c.stackable_hash) by {
        assert(!has_hash(Seq::<ItemV>::empty(), merged[i].stackable_hash));
        let p = choose|p: int|
            0 <= p < inner.len() && inner[p].stackable_hash == merged[i].stackable_hash;
        assert(inner[p].stackable_hash == h0);
        assert(merged[i].stackable_hash == h0);
        assert(m.dom().contains(merged[i].stackable_hash));
        assert(fed.contains(merged[i].stackable_hash));
        assert(out[i] == with_tag(merged[i], m[merged[i].stackable_hash]));
    }
}

} // verus!
