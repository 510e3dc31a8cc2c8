use operator::catalog::Catalog;
use operator::data::{str_eq, DataValue};
use operator::geometry::{Dimension, Location, Vec2, Vec3};
use operator::holds::{HoldMatchError, HoldRequestFilter, HoldStore, State};
use operator::inventories::{Inventory, InventoryState};
use operator::item::{Item, ItemMatchCriteria, UnhashedItem};
use operator::listing::{InventoryListingOptions, ShulkerUnpacking};
use operator::names::{decode_quoted, ends_with_str, strip_last_chars};

fn v3(x: i32, y: i32, z: i32) -> Vec3 {
    Vec3 { x, y, z }
}

fn loc(x: i32, y: i32, z: i32, dim: Dimension) -> Location {
    Location { vec3: v3(x, y, z), dim }
}

fn catalog() -> Catalog {
    let mut c = Catalog::new();
    c.add(1, String::from("red_shulker_box"), 1);
    c.add(2, String::from("stone"), 64);
    c.add(3, String::from("ender_pearl"), 16);
    c.add(4, String::from("shulker_box"), 1);
    c
}

fn plain_item(id: u32, count: u32) -> Item {
    UnhashedItem { item_id: id, count, data_components: DataValue::Null }.into_item(&catalog())
}

fn contained_entry(id: u32, amount: u32) -> DataValue {
    DataValue::Object(vec![
        (String::from("id"), DataValue::UInt(id as u64)),
        (String::from("amount"), DataValue::UInt(amount as u64)),
    ])
}

fn shulker_data_value(name: Option<&str>, entries: Vec<DataValue>) -> DataValue {
    let mut fields = vec![(String::from("minecraft:container"), DataValue::Array(entries))];
    if let Some(n) = name {
        let name_node = DataValue::Object(vec![(
            String::from("value"),
            DataValue::Object(vec![(
                String::from("display"),
                DataValue::Object(vec![(
                    String::from("value"),
                    DataValue::Object(vec![(
                        String::from("Name"),
                        DataValue::Object(vec![(
                            String::from("value"),
                            DataValue::Str(String::from(n)),
                        )]),
                    )]),
                )]),
            )]),
        )]);
        if let DataValue::Object(inner) = name_node {
            for f in inner {
                fields.insert(0, f);
            }
        }
    }
    DataValue::Object(fields)
}

fn shulker_item(name: Option<&str>, entries: Vec<DataValue>, count: u32) -> Item {
    UnhashedItem { item_id: 1, count, data_components: shulker_data_value(name, entries) }
        .into_item(&catalog())
}

#[test]
fn distance_heuristic_cross_dimension_is_constant() {
    let a = loc(7, 8, 9, Dimension::Overworld);
    let b = loc(7, 8, 9, Dimension::TheNether);
    assert_eq!(a.distance_heuristic(&b), 1000);
    let c = loc(-100, 0, 100, Dimension::TheEnd);
    assert_eq!(a.distance_heuristic(&c), 1000);
}

#[test]
fn distance_heuristic_same_dimension_truncates() {
    let a = loc(0, 0, 0, Dimension::Overworld);
    let b = loc(3, 4, 0, Dimension::Overworld);
    assert_eq!(a.distance_heuristic(&b), 5);
    let c = loc(1, 1, 0, Dimension::Overworld);
    assert_eq!(a.distance_heuristic(&c), 1);
    assert_eq!(a.distance_heuristic(&a), 0);
}

#[test]
fn vec3_add_componentwise() {
    let r = v3(1, -2, 3).add(v3(10, 20, 30));
    assert_eq!((r.x, r.y, r.z), (11, 18, 33));
}

#[test]
fn vec2_from_vec3_projects() {
    let p = Vec2::from(v3(5, 9, -7));
    assert_eq!((p.x, p.z), (5, -7));
}

#[test]
fn contained_by_respects_margin() {
    let p = Vec2 { x: 5, z: 5 };
    assert!(p.contained_by(Vec2 { x: 0, z: 0 }, Vec2 { x: 4, z: 4 }, 1));
    assert!(!p.contained_by(Vec2 { x: 0, z: 0 }, Vec2 { x: 4, z: 4 }, 0));
    assert!(p.contained_by(Vec2 { x: 10, z: 10 }, Vec2 { x: 0, z: 0 }, 0));
}

#[test]
fn str_eq_compares_characters() {
    assert!(str_eq("stone", "stone"));
    assert!(!str_eq("stone", "stones"));
    assert!(!str_eq("stone", "stonf"));
}

#[test]
fn ends_with_and_strip() {
    assert!(ends_with_str("red_shulker_box", "shulker_box"));
    assert!(!ends_with_str("stone", "shulker_box"));
    assert_eq!(strip_last_chars("red_shulker_box", 12), "red");
}

#[test]
fn decode_quoted_strips_and_unescapes() {
    assert_eq!(decode_quoted("\"My Box\""), Some(String::from("My Box")));
    assert_eq!(decode_quoted("\"a\\n\\\"b\\\"\""), Some(String::from("a\n\"b\"")));
    assert_eq!(decode_quoted("no quotes"), None);
    assert_eq!(decode_quoted("\"bad\\q\""), None);
    assert_eq!(decode_quoted("\"\""), Some(String::new()));
}

#[test]
fn decode_quoted_reads_json_escapes() {
    assert_eq!(decode_quoted("\"a\\u0041b\""), Some(String::from("aAb")));
    assert_eq!(decode_quoted("\"x\\b\\fy\""), Some(String::from("x\u{0008}\u{000C}y")));
    // A surrogate pair denotes one character beyond the basic plane.
    assert_eq!(decode_quoted("\"\\ud83d\\ude00\""), Some(String::from("\u{1F600}")));
    // A lone surrogate is not a string literal.
    assert_eq!(decode_quoted("\"\\ud83d\""), None);
    assert_eq!(decode_quoted("\"\\ude00\""), None);
    assert_eq!(decode_quoted("\"\\u12g4\""), None);
    // Raw control characters must be escaped.
    assert_eq!(decode_quoted("\"a\tb\""), None);
    assert_eq!(decode_quoted("\"ok \\u00e9\""), Some(String::from("ok \u{00E9}")));
}

#[test]
fn stackable_hash_stable_and_sensitive() {
    let a = UnhashedItem { item_id: 2, count: 1, data_components: DataValue::Null };
    let b = UnhashedItem { item_id: 2, count: 64, data_components: DataValue::Null };
    assert_eq!(a.stackable_hash(), b.stackable_hash());
    let c = UnhashedItem {
        item_id: 2,
        count: 1,
        data_components: DataValue::Str(String::from("enchanted")),
    };
    assert_ne!(a.stackable_hash(), c.stackable_hash());
    let d = UnhashedItem { item_id: 3, count: 1, data_components: DataValue::Null };
    assert_ne!(a.stackable_hash(), d.stackable_hash());
    // Re-decoding identical raw data gives the identical hash.
    let cat = catalog();
    let once = UnhashedItem { item_id: 2, count: 5, data_components: DataValue::Null }
        .into_item(&cat);
    let twice = UnhashedItem { item_id: 2, count: 9, data_components: DataValue::Null }
        .into_item(&cat);
    assert_eq!(once.stackable_hash, twice.stackable_hash);
}

#[test]
fn stack_size_defaults_to_64() {
    let cat = catalog();
    let known = UnhashedItem { item_id: 3, count: 1, data_components: DataValue::Null };
    assert_eq!(known.stack_size(&cat), 16);
    let unknown = UnhashedItem { item_id: 999, count: 1, data_components: DataValue::Null };
    assert_eq!(unknown.stack_size(&cat), 64);
}

#[test]
fn shulker_decoding_reads_name_color_and_contents() {
    let it = shulker_item(Some("\"My Box\""), vec![contained_entry(2, 64), contained_entry(3, 7)], 1);
    let sd = it.shulker_data.as_ref().expect("is a container");
    assert_eq!(sd.name.as_deref(), Some("My Box"));
    assert_eq!(sd.color.as_deref(), Some("red"));
    assert!(!sd.empty);
    assert_eq!(sd.contained_items.len(), 2);
    assert_eq!(sd.contained_items[0].item_id, 2);
    assert_eq!(sd.contained_items[0].count, 64);
    assert_eq!(sd.contained_items[0].stack_size, 64);
    assert_eq!(sd.contained_items[1].item_id, 3);
    assert_eq!(sd.contained_items[1].count, 7);
}

#[test]
fn shulker_without_underscore_has_no_color() {
    let it = UnhashedItem { item_id: 4, count: 1, data_components: shulker_data_value(None, vec![]) }
        .into_item(&catalog());
    let sd = it.shulker_data.as_ref().expect("is a container");
    assert_eq!(sd.color, None);
    assert!(sd.empty);
    assert_eq!(sd.contained_items.len(), 0);
}

#[test]
fn non_container_and_malformed_data_degrade() {
    let plain = plain_item(2, 3);
    assert!(plain.shulker_data.is_none());
    // An entry with no identifier is skipped, never a failure.
    let broken = DataValue::Object(vec![(String::from("amount"), DataValue::UInt(3))]);
    let it = shulker_item(None, vec![broken, DataValue::Null, contained_entry(2, 5)], 1);
    let sd = it.shulker_data.as_ref().unwrap();
    assert_eq!(sd.contained_items.len(), 1);
    assert_eq!(sd.contained_items[0].item_id, 2);
    // An unknown contained identifier is skipped too.
    let it2 = shulker_item(None, vec![contained_entry(999, 5)], 1);
    assert_eq!(it2.shulker_data.as_ref().unwrap().contained_items.len(), 0);
}

fn inv(items: Vec<Option<Item>>, open_from: Vec3) -> Inventory {
    Inventory { slots: items, scanned_at: 0, open_from }
}

#[test]
fn set_inventory_is_last_write_wins() {
    let mut s = InventoryState::new();
    let l = loc(0, 0, 0, Dimension::Overworld);
    s.set_inventory_at(l, inv(vec![Some(plain_item(2, 10))], v3(0, 1, 0)));
    s.set_inventory_at(l, inv(vec![None, Some(plain_item(3, 4))], v3(0, 2, 0)));
    let got = s.inventory_contents_at(&l).expect("known location");
    assert_eq!(got.slots.len(), 2);
    assert!(got.slots[0].is_none());
    assert_eq!(got.slots[1].as_ref().unwrap().item_id, 3);
    let slots = s.iter_slots();
    assert_eq!(slots.len(), 2);
    assert_eq!(slots[0].slot, 0);
    assert_eq!(slots[1].slot, 1);
    assert!(s.inventory_contents_at(&loc(9, 9, 9, Dimension::TheEnd)).is_none());
}

#[test]
fn iter_slots_spans_all_locations() {
    let mut s = InventoryState::new();
    let l1 = loc(0, 0, 0, Dimension::Overworld);
    let l2 = loc(1, 0, 0, Dimension::Overworld);
    s.set_inventory_at(l1, inv(vec![Some(plain_item(2, 1))], v3(0, 0, 0)));
    s.set_inventory_at(l2, inv(vec![None, Some(plain_item(3, 2))], v3(5, 5, 5)));
    let slots = s.iter_slots();
    assert_eq!(slots.len(), 3);
    assert_eq!(slots.iter().filter(|e| e.item.is_some()).count(), 2);
    assert!(slots.iter().all(|e| e.location == l1 || e.location == l2));
}

fn listing_of(s: &InventoryState, u: ShulkerUnpacking) -> Vec<Item> {
    s.get_listing(InventoryListingOptions { shulker_unpacking: u })
}

#[test]
fn listing_merges_equal_kinds_across_slots() {
    let mut s = InventoryState::new();
    s.set_inventory_at(
        loc(0, 0, 0, Dimension::Overworld),
        inv(vec![Some(plain_item(2, 10)), None, Some(plain_item(2, 20))], v3(0, 0, 0)),
    );
    s.set_inventory_at(
        loc(1, 0, 0, Dimension::Overworld),
        inv(vec![Some(plain_item(2, 30)), Some(plain_item(3, 5))], v3(0, 0, 0)),
    );
    let out = listing_of(&s, ShulkerUnpacking::NoUnpacking);
    assert_eq!(out.len(), 2);
    let stone = out.iter().find(|i| i.item_id == 2).unwrap();
    assert_eq!(stone.count, 60);
    let pearl = out.iter().find(|i| i.item_id == 3).unwrap();
    assert_eq!(pearl.count, 5);
}

#[test]
fn no_unpacking_keeps_containers_opaque() {
    let mut s = InventoryState::new();
    let boxed = shulker_item(None, vec![contained_entry(2, 64)], 1);
    let box_hash = boxed.stackable_hash;
    s.set_inventory_at(loc(0, 0, 0, Dimension::Overworld), inv(vec![Some(boxed)], v3(0, 0, 0)));
    let out = listing_of(&s, ShulkerUnpacking::NoUnpacking);
    assert_eq!(out.len(), 1);
    assert_eq!(out[0].item_id, 1);
    assert_eq!(out[0].stackable_hash, box_hash);
}

#[test]
fn unnamed_only_respects_custom_names() {
    let mut s = InventoryState::new();
    let named = shulker_item(Some("\"Keep\""), vec![contained_entry(2, 10)], 1);
    s.set_inventory_at(loc(0, 0, 0, Dimension::Overworld), inv(vec![Some(named)], v3(0, 0, 0)));
    let out = listing_of(&s, ShulkerUnpacking::UnnamedOnly);
    assert_eq!(out.len(), 1);
    assert_eq!(out[0].item_id, 1);

    let mut s2 = InventoryState::new();
    let unnamed = shulker_item(None, vec![contained_entry(2, 10)], 1);
    s2.set_inventory_at(loc(0, 0, 0, Dimension::Overworld), inv(vec![Some(unnamed)], v3(0, 0, 0)));
    let out2 = listing_of(&s2, ShulkerUnpacking::UnnamedOnly);
    assert_eq!(out2.len(), 1);
    assert_eq!(out2[0].item_id, 2);
    assert_eq!(out2[0].count, 10);
}

#[test]
fn full_listing_tags_full_containers() {
    let mut s = InventoryState::new();
    let boxed = shulker_item(None, vec![contained_entry(2, 64), contained_entry(2, 64)], 1);
    let box_hash = boxed.stackable_hash;
    s.set_inventory_at(loc(0, 0, 0, Dimension::Overworld), inv(vec![Some(boxed)], v3(0, 0, 0)));
    let out = listing_of(&s, ShulkerUnpacking::FullListing);
    assert_eq!(out.len(), 1);
    assert_eq!(out[0].item_id, 2);
    assert_eq!(out[0].count, 128);
    assert_eq!(out[0].full_shulker_stackable_hash, Some(box_hash));
}

#[test]
fn partial_containers_are_unpacked_without_tag() {
    let mut s = InventoryState::new();
    // Not all at full stack size: unpacked, but no full-container tag.
    let boxed = shulker_item(None, vec![contained_entry(2, 64), contained_entry(2, 3)], 1);
    s.set_inventory_at(loc(0, 0, 0, Dimension::Overworld), inv(vec![Some(boxed)], v3(0, 0, 0)));
    let out = listing_of(&s, ShulkerUnpacking::FullListing);
    assert_eq!(out.len(), 1);
    assert_eq!(out[0].count, 67);
    assert_eq!(out[0].full_shulker_stackable_hash, None);
}

fn fresh_state() -> State {
    State { inventories: InventoryState::new(), holds: HoldStore::new() }
}

#[test]
fn empty_slot_match_claims_first_free_slot() {
    let mut st = fresh_state();
    let l = loc(0, 0, 0, Dimension::Overworld);
    st.inventories.set_inventory_at(
        l,
        inv(vec![Some(plain_item(2, 1)), None, None], v3(7, 7, 7)),
    );
    let holds = HoldRequestFilter::EmptySlot.attempt_match(&mut st).expect("a free slot");
    assert_eq!(holds.len(), 1);
    assert_eq!(holds[0].location, l);
    assert_eq!(holds[0].slot, 1);
    assert_eq!(holds[0].open_from, v3(7, 7, 7));
    assert!(st.holds.existing_hold(l, 1).is_some());
    // The next attempt must skip the held slot.
    let again = HoldRequestFilter::EmptySlot.attempt_match(&mut st).expect("one more");
    assert_eq!(again[0].slot, 2);
    // Nothing left.
    let err = HoldRequestFilter::EmptySlot.attempt_match(&mut st).unwrap_err();
    assert_eq!(err, HoldMatchError::NoMatch);
}

#[test]
fn item_match_takes_largest_stacks_first() {
    let mut st = fresh_state();
    let l = loc(0, 0, 0, Dimension::Overworld);
    st.inventories.set_inventory_at(
        l,
        inv(
            vec![Some(plain_item(2, 10)), Some(plain_item(2, 40)), Some(plain_item(2, 5))],
            v3(0, 0, 0),
        ),
    );
    let hash = UnhashedItem { item_id: 2, count: 1, data_components: DataValue::Null }
        .stackable_hash();
    let req = HoldRequestFilter::ItemMatch {
        match_criteria: ItemMatchCriteria::StackableHash { stackable_hash: hash },
        total: 45,
    };
    let holds = req.attempt_match(&mut st).expect("enough stacks");
    assert_eq!(holds.len(), 2);
    // Largest first: the 40-stack (slot 1), then the 10-stack (slot 0).
    assert_eq!(holds[0].slot, 1);
    assert_eq!(holds[1].slot, 0);
    // The 5-stack is left unclaimed.
    assert!(st.holds.existing_hold(l, 2).is_none());
}

#[test]
fn item_match_without_candidates_fails() {
    let mut st = fresh_state();
    st.inventories.set_inventory_at(
        loc(0, 0, 0, Dimension::Overworld),
        inv(vec![Some(plain_item(3, 16))], v3(0, 0, 0)),
    );
    let hash = UnhashedItem { item_id: 2, count: 1, data_components: DataValue::Null }
        .stackable_hash();
    let req = HoldRequestFilter::ItemMatch {
        match_criteria: ItemMatchCriteria::StackableHash { stackable_hash: hash },
        total: 1,
    };
    assert_eq!(req.attempt_match(&mut st).unwrap_err(), HoldMatchError::NoMatch);
}

#[test]
fn item_match_returns_partial_coverage() {
    let mut st = fresh_state();
    st.inventories.set_inventory_at(
        loc(0, 0, 0, Dimension::Overworld),
        inv(vec![Some(plain_item(2, 10))], v3(0, 0, 0)),
    );
    let hash = UnhashedItem { item_id: 2, count: 1, data_components: DataValue::Null }
        .stackable_hash();
    let req = HoldRequestFilter::ItemMatch {
        match_criteria: ItemMatchCriteria::StackableHash { stackable_hash: hash },
        total: 1000,
    };
    let holds = req.attempt_match(&mut st).expect("partial success");
    assert_eq!(holds.len(), 1);
}

#[test]
fn slot_location_is_exclusive() {
    let mut st = fresh_state();
    let l = loc(3, 3, 3, Dimension::TheNether);
    let first = HoldRequestFilter::SlotLocation { location: l, slot: 7, open_from: v3(1, 1, 1) };
    let second = HoldRequestFilter::SlotLocation { location: l, slot: 7, open_from: v3(2, 2, 2) };
    let holds = first.attempt_match(&mut st).expect("slot was free");
    assert_eq!(holds.len(), 1);
    assert_eq!(holds[0].location, l);
    assert_eq!(holds[0].slot, 7);
    let err = second.attempt_match(&mut st).unwrap_err();
    assert_eq!(err, HoldMatchError::AlreadyHeld);
    // A different slot at the same location is independent.
    let third = HoldRequestFilter::SlotLocation { location: l, slot: 8, open_from: v3(2, 2, 2) };
    assert!(third.attempt_match(&mut st).is_ok());
}

#[test]
fn hold_store_create_checks_and_claims() {
    let mut hs = HoldStore::new();
    let l = loc(0, 0, 0, Dimension::Overworld);
    assert!(hs.existing_hold(l, 0).is_none());
    let h = hs.create(l, 0, v3(0, 0, 0)).expect("free");
    assert_eq!(h.location, l);
    assert!(hs.existing_hold(l, 0).is_some());
    assert!(hs.create(l, 0, v3(0, 0, 0)).is_err());
}

#[test]
fn matches_item_goes_by_stackable_hash() {
    let a = plain_item(2, 10);
    let b = plain_item(2, 64);
    let c = plain_item(3, 10);
    let crit = ItemMatchCriteria::StackableHash { stackable_hash: a.stackable_hash };
    assert!(crit.matches_item(&b));
    assert!(!crit.matches_item(&c));
}

#[test]
fn merged_counts_saturate_at_the_count_limit() {
    let mut s = InventoryState::new();
    s.set_inventory_at(
        loc(0, 0, 0, Dimension::Overworld),
        inv(
            vec![Some(plain_item(2, u32::MAX)), Some(plain_item(2, 5))],
            v3(0, 0, 0),
        ),
    );
    let out = listing_of(&s, ShulkerUnpacking::NoUnpacking);
    assert_eq!(out.len(), 1);
    assert_eq!(out[0].count, u32::MAX);
}

#[test]
fn overlapping_full_container_mappings_last_wins() {
    // Two container kinds both wrap full stacks of the same contained kind:
    // the mapping of the last-processed container survives.
    let mut s = InventoryState::new();
    let box_a = shulker_item(Some("\"A\""), vec![contained_entry(2, 64)], 1);
    let box_b = shulker_item(Some("\"B\""), vec![contained_entry(2, 64)], 1);
    assert_ne!(box_a.stackable_hash, box_b.stackable_hash);
    let hash_b = box_b.stackable_hash;
    s.set_inventory_at(
        loc(0, 0, 0, Dimension::Overworld),
        inv(vec![Some(box_a), Some(box_b)], v3(0, 0, 0)),
    );
    let out = listing_of(&s, ShulkerUnpacking::FullListing);
    assert_eq!(out.len(), 1);
    assert_eq!(out[0].item_id, 2);
    assert_eq!(out[0].count, 128);
    assert_eq!(out[0].full_shulker_stackable_hash, Some(hash_b));
}

#[test]
fn item_match_with_total_zero_claims_one_stack() {
    let mut st = fresh_state();
    st.inventories.set_inventory_at(
        loc(0, 0, 0, Dimension::Overworld),
        inv(vec![Some(plain_item(2, 10)), Some(plain_item(2, 20))], v3(0, 0, 0)),
    );
    let hash = UnhashedItem { item_id: 2, count: 1, data_components: DataValue::Null }
        .stackable_hash();
    let req = HoldRequestFilter::ItemMatch {
        match_criteria: ItemMatchCriteria::StackableHash { stackable_hash: hash },
        total: 0,
    };
    let holds = req.attempt_match(&mut st).expect("one claim");
    assert_eq!(holds.len(), 1);
    assert_eq!(holds[0].slot, 1);
}

#[test]
fn emptiness_means_no_decodable_items() {
    // An array holding only undecodable entries counts as empty.
    let it = shulker_item(None, vec![DataValue::Null, DataValue::Null], 1);
    let sd = it.shulker_data.as_ref().unwrap();
    assert!(sd.empty);
    assert_eq!(sd.contained_items.len(), 0);
    // One decodable entry makes it non-empty.
    let it2 = shulker_item(None, vec![DataValue::Null, contained_entry(2, 5)], 1);
    assert!(!it2.shulker_data.as_ref().unwrap().empty);
}

#[test]
fn tags_are_stamped_only_through_unpacking() {
    // A homogeneous-full container plus a loose stack of the contained kind:
    // with unpacking off, neither entry carries a full-container tag.
    let mut s = InventoryState::new();
    let boxed = shulker_item(None, vec![contained_entry(2, 64)], 1);
    s.set_inventory_at(
        loc(0, 0, 0, Dimension::Overworld),
        inv(vec![Some(boxed), Some(plain_item(2, 7))], v3(0, 0, 0)),
    );
    let out = listing_of(&s, ShulkerUnpacking::NoUnpacking);
    assert_eq!(out.len(), 2);
    for e in &out {
        assert_eq!(e.full_shulker_stackable_hash, None);
    }
    // A named container under the unnamed-only policy is kept opaque too,
    // so the loose stack again stays untagged.
    let mut s2 = InventoryState::new();
    let named = shulker_item(Some("\"Keep\""), vec![contained_entry(2, 64)], 1);
    s2.set_inventory_at(
        loc(0, 0, 0, Dimension::Overworld),
        inv(vec![Some(named), Some(plain_item(2, 7))], v3(0, 0, 0)),
    );
    let out2 = listing_of(&s2, ShulkerUnpacking::UnnamedOnly);
    assert_eq!(out2.len(), 2);
    for e in &out2 {
        assert_eq!(e.full_shulker_stackable_hash, None);
    }
    // Unpacked, the contained kind is tagged.
    let out3 = listing_of(&s, ShulkerUnpacking::FullListing);
    assert!(out3.iter().any(|e| e.full_shulker_stackable_hash.is_some()));
}
