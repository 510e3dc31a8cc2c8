//! Recursive container decoding: how a raw item and its metadata blob become
//! a canonical `Item`, including the nested inventory of container items.

use vstd::prelude::*;
use crate::catalog::{cat_lookup, cat_view, spec_stack_size, Catalog, CatalogEntryV};
use crate::data::{lemma_obj_get_height, obj_get, DataVal, DataValue, dv_height, dv_height_seq, dv_view, lemma_height_seq_elem};
use crate::item::{item_view, item_views_of, spec_stackable_hash, stackable_hash_of, Item, ItemV, ShulkerData, ShulkerDataV, shulker_view, UnhashedItem};
use crate::names::{ends_with_str, has_suffix, decode_quoted, spec_decode_quoted, strip_last_chars};

verus! {

/// The blob node a container's display name is read from, behind the fixed
/// path the scanner writes it under.
pub open spec fn spec_name_node(d: DataVal) -> Option<DataVal> {
    match obj_get(d, "value"@) {
        Some(v1) => match obj_get(v1, "display"@) {
            Some(v2) => match obj_get(v2, "value"@) {
                Some(v3) => match obj_get(v3, "Name"@) {
                    Some(v4) => obj_get(v4, "value"@),
                    None => None,
                },
                None => None,
            },
            None => None,
        },
        None => None,
    }
}

/// A container's decoded custom display name: the name node must hold a
/// quoted string literal; anything else degrades to no name.
pub open spec fn spec_custom_name(d: DataVal) -> Option<Seq<char>> {
    match spec_name_node(d) {
        Some(DataVal::Str(s)) => spec_decode_quoted(s),
        _ => None,
    }
}

/// The blob a contained entry hands to the nested item: its own components
/// node, or null when it has none.
pub open spec fn spec_entry_data(e: DataVal) -> DataVal {
    match obj_get(e, "data_components"@) {
        Some(s) => s,
        None => DataVal::Null,
    }
}

/// The canonical item a raw (identifier, count, blob) triple decodes to.
pub open spec fn spec_item(item_id: u32, count: u32, d: DataVal, cat: Seq<CatalogEntryV>) -> ItemV
    decreases dv_height(d), 8nat, 0nat,
{
    ItemV {
        item_id,
        count,
        data_components: d,
        stack_size: spec_stack_size(cat, item_id),
        stackable_hash: spec_stackable_hash(item_id, d),
        full_shulker_stackable_hash: None,
        shulker_data: spec_shulker(item_id, d, cat),
    }
}

/// The container payload of an item: present exactly when the catalog names
/// the identifier with the container suffix; never a hard failure.
pub open spec fn spec_shulker(item_id: u32, d: DataVal, cat: Seq<CatalogEntryV>) -> Option<
    ShulkerDataV,
>
    decreases dv_height(d), 7nat, 0nat,
{
    match cat_lookup(cat, item_id) {
        Some(centry) => if has_suffix(centry.name, "shulker_box"@) {
            Some(
                ShulkerDataV {
                    name: spec_custom_name(d),
                    color: if has_suffix(centry.name, "_shulker_box"@) {
                        Some(centry.name.take(centry.name.len() - 12))
                    } else {
                        None
                    },
                    contained_items: spec_contained(d, cat),
                    empty: spec_contained(d, cat).len() == 0,
                },
            )
        } else {
            None
        },
        None => None,
    }
}

/// The decoded contained items of a container blob, in array order, with
/// undecodable entries skipped.
pub open spec fn spec_contained(d: DataVal, cat: Seq<CatalogEntryV>) -> Seq<ItemV>
    decreases dv_height(d), 2nat, 0nat,
    via spec_contained_dec
{
    match obj_get(d, "minecraft:container"@) {
        Some(DataVal::Arr(elems)) => spec_entries(elems, cat),
        _ => Seq::empty(),
    }
}

#[via_fn]
proof fn spec_contained_dec(d: DataVal, cat: Seq<CatalogEntryV>) {
    match obj_get(d, "minecraft:container"@) {
        Some(a) => {
            lemma_obj_get_height(d, "minecraft:container"@);
        },
        None => {},
    }
}

pub open spec fn spec_entries(elems: Seq<DataVal>, cat: Seq<CatalogEntryV>) -> Seq<ItemV>
    decreases dv_height_seq(elems), 9nat, elems.len(),
    via spec_entries_dec
{
    if elems.len() == 0 {
        Seq::empty()
    } else {
        let rest = spec_entries(elems.drop_first(), cat);
        match spec_entry(elems[0], cat) {
            Some(it) => seq![it] + rest,
            None => rest,
        }
    }
}

#[via_fn]
proof fn spec_entries_dec(elems: Seq<DataVal>, cat: Seq<CatalogEntryV>) {
    if elems.len() > 0 {
        lemma_height_seq_elem(elems, 0);
        assert(dv_height_seq(elems.drop_first()) <= dv_height_seq(elems));
    }
}

/// One entry of the contained-items array: an entry decodes when it names a
/// catalogued identifier and a count; otherwise it is skipped.
pub open spec fn spec_entry(e: DataVal, cat: Seq<CatalogEntryV>) -> Option<ItemV>
    decreases dv_height(e), 5nat, 0nat,
    via spec_entry_dec
{
    if e is Null {
        None
    } else {
        match obj_get(e, "id"@) {
            Some(DataVal::UInt(mc_id)) => match cat_lookup(cat, mc_id as u32) {
                Some(centry) => match obj_get(e, "amount"@) {
                    Some(DataVal::UInt(amt)) => Some(
                        spec_item(centry.id, amt as u32, spec_entry_data(e), cat),
                    ),
                    _ => None,
                },
                None => None,
            },
            _ => None,
        }
    }
}

#[via_fn]
proof fn spec_entry_dec(e: DataVal, cat: Seq<CatalogEntryV>) {
    match obj_get(e, "data_components"@) {
        Some(s) => {
            lemma_obj_get_height(e, "data_components"@);
        },
        None => {},
    }
}

/// Reads the custom display name stored behind the fixed path.
fn lookup_custom_name(data: &DataValue) -> (r: Option<String>)
    ensures
        match r {
            Some(s) => spec_custom_name(dv_view(*data)) == Some(s@),
            None => spec_custom_name(dv_view(*data)) is None,
        },
{
    let n1 = match data.get_field("value") {
        Some(v) => v,
        None => {
            return None;
        },
    };
    let n2 = match n1.get_field("display") {
        Some(v) => v,
        None => {
            return None;
        },
    };
    let n3 = match n2.get_field("value") {
        Some(v) => v,
        None => {
            return None;
        },
    };
    let n4 = match n3.get_field("Name") {
        Some(v) => v,
        None => {
            return None;
        },
    };
    let n5 = match n4.get_field("value") {
        Some(v) => v,
        None => {
            return None;
        },
    };
    let s = match n5.as_str() {
        Some(s) => s,
        None => {
            return None;
        },
    };
    decode_quoted(s.as_str())
}

/// Decodes the contained items of a container blob.
fn contained_from(data: &DataValue, catalog: &Catalog) -> (r: Vec<Item>)
    ensures
        item_views_of(r@) == spec_contained(dv_view(*data), cat_view(*catalog)),
    decreases dv_height(dv_view(*data)), 2nat, 0nat,
{
    let arr_node = match data.get_field("minecraft:container") {
        Some(v) => v,
        None => {
            let out: Vec<Item> = Vec::new();
            proof {
                assert(item_views_of(out@) =~= Seq::<ItemV>::empty());
            }
            return out;
        },
    };
    let arr = match arr_node.as_array() {
        Some(a) => a,
        None => {
            let out: Vec<Item> = Vec::new();
            proof {
                assert(item_views_of(out@) =~= Seq::<ItemV>::empty());
            }
            return out;
        },
    };
    let ghost d = dv_view(*data);
    let ghost velems = crate::data::views_of(arr@);
    proof {
        lemma_obj_get_height(d, "minecraft:container"@);
        assert(velems.skip(0) =~= velems);
    }
    let mut out: Vec<Item> = Vec::new();
    let mut i: usize = 0;
    while i < arr.len()
        invariant
            0 <= i <= arr@.len(),
            velems == crate::data::views_of(arr@),
            velems.len() == arr@.len(),
            d == dv_view(*data),
            obj_get(d, "minecraft:container"@) == Some(DataVal::Arr(velems)),
            dv_height_seq(velems) < dv_height(d),
            spec_contained(d, cat_view(*catalog)) == item_views_of(out@) + spec_entries(
                velems.skip(i as int),
                cat_view(*catalog),
            ),
        decreases arr@.len() - i,
    {
        proof {
            assert(velems.skip(i as int)[0] == velems[i as int]);
            assert(velems.skip(i as int).drop_first() =~= velems.skip(i + 1));
            lemma_height_seq_elem(velems, i as int);
        }
        let ghost old_views = item_views_of(out@);
        match entry_exec(&arr[i], catalog) {
            Some(item) => {
                let ghost iv = item_view(item);
                out.push(item);
                proof {
                    assert(item_views_of(out@) =~= old_views.push(iv));
                    assert(old_views + (seq![iv] + spec_entries(
                        velems.skip(i + 1),
                        cat_view(*catalog),
                    )) =~= old_views.push(iv) + spec_entries(
                        velems.skip(i + 1),
                        cat_view(*catalog),
                    ));
                }
            },
            None => {},
        }
        i += 1;
    }
    proof {
        assert(velems.skip(i as int).len() == 0);
        assert(item_views_of(out@) + Seq::<ItemV>::empty() =~= item_views_of(out@));
    }
    out
}

/// Decodes one entry of the contained-items array.
fn entry_exec(e: &DataValue, catalog: &Catalog) -> (r: Option<Item>)
    ensures
        match r {
            Some(it) => spec_entry(dv_view(*e), cat_view(*catalog)) == Some(item_view(it)),
            None => spec_entry(dv_view(*e), cat_view(*catalog)) is None,
        },
    decreases dv_height(dv_view(*e)), 5nat, 0nat,
{
    if e.is_null() {
        return None;
    }
    let idv = match e.get_field("id") {
        Some(v) => v,
        None => {
            return None;
        },
    };
    let mc_id = match idv.as_uint() {
        Some(n) => n,
        None => {
            return None;
        },
    };
    let id32: u32 = #[verifier::truncate] (mc_id as u32);
    let centry = match catalog.lookup(id32) {
        Some(c) => c,
        None => {
            return None;
        },
    };
    let amtv = match e.get_field("amount") {
        Some(v) => v,
        None => {
            return None;
        },
    };
    let amt = match amtv.as_uint() {
        Some(n) => n,
        None => {
            return None;
        },
    };
    let amt32: u32 = #[verifier::truncate] (amt as u32);
    let cid = centry.id;
    match e.get_field("data_components") {
        Some(sub) => {
            proof {
                lemma_obj_get_height(dv_view(*e), "data_components"@);
            }
            let it = item_from(cid, amt32, sub, catalog);
            Some(it)
        },
        None => {
            let null_data = DataValue::Null;
            let it = item_from(cid, amt32, &null_data, catalog);
            Some(it)
        },
    }
}

/// Builds the canonical item for an identifier, count and blob.
fn item_from(item_id: u32, count: u32, data: &DataValue, catalog: &Catalog) -> (r: Item)
    ensures
        item_view(r) == spec_item(item_id, count, dv_view(*data), cat_view(*catalog)),
    decreases dv_height(dv_view(*data)), 8nat, 0nat,
{
    let stackable_hash = stackable_hash_of(item_id, data);
    let shulker_data = shulker_from(item_id, data, catalog);
    let stack_size = catalog.stack_size_of(item_id);
    let r = Item {
        item_id,
        count,
        data_components: data.deep_clone(),
        stack_size,
        stackable_hash,
        full_shulker_stackable_hash: None,
        shulker_data,
    };
    r
}

/// Decodes the container payload for an identifier and blob.
fn shulker_from(item_id: u32, data: &DataValue, catalog: &Catalog) -> (r: Option<ShulkerData>)
    ensures
        match r {
            Some(sd) => spec_shulker(item_id, dv_view(*data), cat_view(*catalog)) == Some(
                shulker_view(sd),
            ),
            None => spec_shulker(item_id, dv_view(*data), cat_view(*catalog)) is None,
        },
    decreases dv_height(dv_view(*data)), 7nat, 0nat,
{
    let centry = match catalog.lookup(item_id) {
        Some(c) => c,
        None => {
            return None;
        },
    };
    if !ends_with_str(centry.name.as_str(), "shulker_box") {
        return None;
    }
    let name = lookup_custom_name(data);
    let color: Option<String> = if ends_with_str(centry.name.as_str(), "_shulker_box") {
        proof {
            reveal_strlit("_shulker_box");
        }
        Some(strip_last_chars(centry.name.as_str(), 12))
    } else {
        None
    };
    let contained_items = contained_from(data, catalog);
    // Emptiness means no decodable contained items, not a raw array length.
    let empty = contained_items.len() == 0;
    let sd = ShulkerData { name, color, contained_items, empty };
    Some(sd)
}

impl UnhashedItem {
    /// The stackable hash of this raw item.
    pub fn stackable_hash(&self) -> (r: u64)
        ensures
            r == spec_stackable_hash(self.item_id, dv_view(self.data_components)),
    {
        stackable_hash_of(self.item_id, &self.data_components)
    }

    /// The stack size the catalog gives this raw item.
    pub fn stack_size(&self, catalog: &Catalog) -> (r: u32)
        ensures
            r == spec_stack_size(cat_view(*catalog), self.item_id),
    {
        catalog.stack_size_of(self.item_id)
    }

    /// The container payload of this raw item, when the catalog marks its
    /// identifier as a container.
    pub fn shulker_data(&self, catalog: &Catalog) -> (r: Option<ShulkerData>)
        ensures
            match r {
                Some(sd) => spec_shulker(
                    self.item_id,
                    dv_view(self.data_components),
                    cat_view(*catalog),
                ) == Some(shulker_view(sd)),
                None => spec_shulker(
                    self.item_id,
                    dv_view(self.data_components),
                    cat_view(*catalog),
                ) is None,
            },
    {
        shulker_from(self.item_id, &self.data_components, catalog)
    }

    /// The canonical item this raw item decodes to.
    pub fn into_item(self, catalog: &Catalog) -> (r: Item)
        ensures
            item_view(r) == spec_item(
                self.item_id,
                self.count,
                dv_view(self.data_components),
                cat_view(*catalog),
            ),
    {
        item_from(self.item_id, self.count, &self.data_components, catalog)
    }
}

/// A deterministic digest: an item's stackable hash depends on its
/// identifier and metadata alone, so re-decoding identical raw data always
/// yields the same hash, whatever the count or the catalog in hand.
pub proof fn lemma_stackable_hash_stable(
    id: u32,
    count_a: u32,
    count_b: u32,
    d: DataVal,
    cat_a: Seq<CatalogEntryV>,
    cat_b: Seq<CatalogEntryV>,
)
    ensures
        spec_item(id, count_a, d, cat_a).stackable_hash == spec_item(
            id,
            count_b,
            d,
            cat_b,
        ).stackable_hash,
{
}

} // verus!
