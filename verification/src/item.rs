//! The item model: canonical item representation, the stackable hash that
//! identifies interchangeable item kinds, and recursive container decoding.

use vstd::prelude::*;
use crate::data::{
    DataVal, DataValue, dv_height, dv_view, field_views, lemma_height_fields_elem,
    lemma_height_seq_elem, views_of,
};

verus! {

/// A raw scanned item, before hashing and container decoding.
pub struct UnhashedItem {
    pub item_id: u32,
    pub count: u32,
    pub data_components: DataValue,
}

/// The decoded payload of a container item.
pub struct ShulkerData {
    pub name: Option<String>,
    pub color: Option<String>,
    pub contained_items: Vec<Item>,
    pub empty: bool,
}

/// A canonical item: identity, counts, and (for containers) the decoded
/// nested inventory.
pub struct Item {
    pub item_id: u32,
    pub count: u32,
    pub data_components: DataValue,
    pub stack_size: u32,
    pub stackable_hash: u64,
    pub full_shulker_stackable_hash: Option<u64>,
    pub shulker_data: Option<ShulkerData>,
}

/// The mathematical shape of an item.
#[verifier::ext_equal]
pub struct ItemV {
    pub item_id: u32,
    pub count: u32,
    pub data_components: DataVal,
    pub stack_size: u32,
    pub stackable_hash: u64,
    pub full_shulker_stackable_hash: Option<u64>,
    pub shulker_data: Option<ShulkerDataV>,
}

/// The mathematical shape of a container payload.
#[verifier::ext_equal]
pub struct ShulkerDataV {
    pub name: Option<Seq<char>>,
    pub color: Option<Seq<char>>,
    pub contained_items: Seq<ItemV>,
    pub empty: bool,
}

/// The shape an `Item` stands for.
pub open spec fn item_view(i: Item) -> ItemV
    decreases i,
{
    ItemV {
        item_id: i.item_id,
        count: i.count,
        data_components: dv_view(i.data_components),
        stack_size: i.stack_size,
        stackable_hash: i.stackable_hash,
        full_shulker_stackable_hash: i.full_shulker_stackable_hash,
        shulker_data: match i.shulker_data {
            Some(sd) => Some(shulker_view(sd)),
            None => None,
        },
    }
}

/// The shape a `ShulkerData` stands for.
pub open spec fn shulker_view(s: ShulkerData) -> ShulkerDataV
    decreases s,
{
    ShulkerDataV {
        name: match s.name {
            Some(n) => Some(n@),
            None => None,
        },
        color: match s.color {
            Some(c) => Some(c@),
            None => None,
        },
        contained_items: item_views_of(s.contained_items@),
        empty: s.empty,
    }
}

/// The shapes of a sequence of items, element by element.
pub open spec fn item_views_of(s: Seq<Item>) -> Seq<ItemV>
    decreases s,
{
    Seq::new(
        s.len(),
        |i: int|
            if 0 <= i < s.len() {
                item_view(s[i])
            } else {
                arbitrary()
            },
    )
}

/// Seed of the stackable hash.
pub const HASH_SEED: u64 = 0xcbf2_9ce4_8422_2325;

/// Multiplier of the stackable hash.
pub const HASH_PRIME: u64 = 0x100_0000_01b3;

/// One mixing step of the stackable hash.
pub open spec fn hash_step(acc: u64, x: u64) -> u64 {
    (acc ^ x).wrapping_mul(HASH_PRIME)
}

/// Folds the characters of a string into the hash.
pub open spec fn hash_chars(acc: u64, s: Seq<char>) -> u64
    decreases s.len(),
{
    if s.len() == 0 {
        acc
    } else {
        hash_chars(hash_step(acc, (s[0] as u32) as u64), s.drop_first())
    }
}

/// Folds a metadata blob into the hash. Every constructor is tagged, and
/// variable-length parts are length-prefixed, so that distinct blobs mix
/// distinct streams.
pub open spec fn hash_val(acc: u64, v: DataVal) -> u64
    decreases v,
{
    match v {
        DataVal::Null => hash_step(acc, 0),
        DataVal::Bool(b) => hash_step(
            hash_step(acc, 1),
            if b {
                1
            } else {
                0
            },
        ),
        DataVal::UInt(n) => hash_step(hash_step(acc, 2), n),
        DataVal::Str(s) => hash_chars(hash_step(hash_step(acc, 3), s.len() as u64), s),
        DataVal::Arr(a) => hash_arr(hash_step(hash_step(acc, 4), a.len() as u64), a),
        DataVal::Obj(o) => hash_obj(hash_step(hash_step(acc, 5), o.len() as u64), o),
    }
}

pub open spec fn hash_arr(acc: u64, a: Seq<DataVal>) -> u64
    decreases a,
{
    if a.len() == 0 {
        acc
    } else {
        hash_arr(hash_val(acc, a[0]), a.drop_first())
    }
}

pub open spec fn hash_obj(acc: u64, o: Seq<(Seq<char>, DataVal)>) -> u64
    decreases o,
{
    if o.len() == 0 {
        acc
    } else {
        hash_obj(
            hash_val(hash_chars(hash_step(acc, o[0].0.len() as u64), o[0].0), o[0].1),
            o.drop_first(),
        )
    }
}

/// The stackable hash of an item kind: a deterministic 64-bit digest of the
/// identifier and the blob, independent of count and stack size. Two items
/// are interchangeable exactly when this matches.
pub open spec fn spec_stackable_hash(item_id: u32, data: DataVal) -> u64 {
    hash_val(hash_step(HASH_SEED, item_id as u64), data)
}

fn hash_chars_exec(acc: u64, s: &str) -> (r: u64)
    ensures
        r == hash_chars(acc, s@),
{
    let len = s.unicode_len();
    let mut i: usize = 0;
    let mut h = acc;
    proof {
        assert(s@.skip(0) =~= s@);
    }
    while i < len
        invariant
            0 <= i <= len,
            len == s@.len(),
            hash_chars(acc, s@) == hash_chars(h, s@.skip(i as int)),
        decreases len - i,
    {
        let c = s.get_char(i);
        proof {
            assert(s@.skip(i as int)[0] == s@[i as int]);
            assert(s@.skip(i as int).drop_first() =~= s@.skip(i + 1));
        }
        h = (h ^ ((c as u32) as u64)).wrapping_mul(HASH_PRIME);
        i += 1;
    }
    h
}

fn hash_val_exec(acc: u64, v: &DataValue) -> (r: u64)
    ensures
        r == hash_val(acc, dv_view(*v)),
    decreases dv_height(dv_view(*v)),
{
    match v {
        DataValue::Null => (acc ^ 0).wrapping_mul(HASH_PRIME),
        DataValue::Bool(b) => {
            let h = (acc ^ 1).wrapping_mul(HASH_PRIME);
            (h ^ (if *b { 1 } else { 0 })).wrapping_mul(HASH_PRIME)
        },
        DataValue::UInt(n) => {
            let h = (acc ^ 2).wrapping_mul(HASH_PRIME);
            (h ^ *n).wrapping_mul(HASH_PRIME)
        },
        DataValue::Str(s) => {
            let h = (acc ^ 3).wrapping_mul(HASH_PRIME);
            let len = s.as_str().unicode_len();
            let h = (h ^ (len as u64)).wrapping_mul(HASH_PRIME);
            hash_chars_exec(h, s.as_str())
        },
        DataValue::Array(a) => {
            let h = (acc ^ 4).wrapping_mul(HASH_PRIME);
            let mut h = (h ^ (a.len() as u64)).wrapping_mul(HASH_PRIME);
            let ghost va = views_of(a@);
            proof {
                assert(va.skip(0) =~= va);
            }
            let ghost h0 = h;
            let mut i: usize = 0;
            while i < a.len()
                invariant
                    0 <= i <= a.len(),
                    va == views_of(a@),
                    va.len() == a@.len(),
                    dv_view(*v) == DataVal::Arr(va),
                    hash_arr(h0, va) == hash_arr(h, va.skip(i as int)),
                decreases a.len() - i,
            {
                proof {
                    assert(va.skip(i as int)[0] == va[i as int]);
                    assert(va.skip(i as int).drop_first() =~= va.skip(i + 1));
                    lemma_height_seq_elem(va, i as int);
                }
                h = hash_val_exec(h, &a[i]);
                i += 1;
            }
            proof {
                assert(va.skip(i as int).len() == 0);
            }
            h
        },
        DataValue::Object(o) => {
            let h = (acc ^ 5).wrapping_mul(HASH_PRIME);
            let mut h = (h ^ (o.len() as u64)).wrapping_mul(HASH_PRIME);
            let ghost vo = field_views(o@);
            proof {
                assert(vo.skip(0) =~= vo);
            }
            let ghost h0 = h;
            let mut i: usize = 0;
            while i < o.len()
                invariant
                    0 <= i <= o.len(),
                    vo == field_views(o@),
                    vo.len() == o@.len(),
                    dv_view(*v) == DataVal::Obj(vo),
                    hash_obj(h0, vo) == hash_obj(h, vo.skip(i as int)),
                decreases o.len() - i,
            {
                proof {
                    assert(vo.skip(i as int)[0] == vo[i as int]);
                    assert(vo.skip(i as int).drop_first() =~= vo.skip(i + 1));
                    lemma_height_fields_elem(vo, i as int);
                }
                let key = &o[i].0;
                let klen = key.as_str().unicode_len();
                let hk = (h ^ (klen as u64)).wrapping_mul(HASH_PRIME);
                let hk = hash_chars_exec(hk, key.as_str());
                h = hash_val_exec(hk, &o[i].1);
                i += 1;
            }
            proof {
                assert(vo.skip(i as int).len() == 0);
            }
            h
        },
    }
}

/// The stackable hash of an identifier together with its metadata blob.
pub fn stackable_hash_of(item_id: u32, data: &DataValue) -> (r: u64)
    ensures
        r == spec_stackable_hash(item_id, dv_view(*data)),
{
    let seed = (HASH_SEED ^ (item_id as u64)).wrapping_mul(HASH_PRIME);
    hash_val_exec(seed, data)
}

impl Item {
    /// A structurally equal copy of the item.
    pub fn deep_clone(&self) -> (r: Item)
        ensures
            item_view(r) == item_view(*self),
        decreases *self,
    {
        let shulker_data: Option<ShulkerData> = match &self.shulker_data {
            Some(sd) => {
                let mut contained: Vec<Item> = Vec::new();
                let mut i: usize = 0;
                while i < sd.contained_items.len()
                    invariant
                        0 <= i <= sd.contained_items@.len(),
                        contained@.len() == i,
                        forall|j: int| 0 <= j < i ==> item_view(contained@[j]) == item_view(
                            sd.contained_items@[j],
                        ),
                        self.shulker_data matches Some(x) && x == *sd,
                    decreases sd.contained_items@.len() - i,
                {
                    proof {
                        assert(decreases_to!(*self => self.shulker_data));
                        assert(decreases_to!(self.shulker_data => *sd));
                        assert(decreases_to!(*sd => sd.contained_items));
                        assert(decreases_to!(sd.contained_items => sd.contained_items@));
                        assert(decreases_to!(sd.contained_items@ => sd.contained_items@[i as int]));
                    }
                    let c = sd.contained_items[i].deep_clone();
                    contained.push(c);
                    i += 1;
                }
                proof {
                    assert(item_views_of(contained@) =~= item_views_of(sd.contained_items@));
                }
                Some(
                    ShulkerData {
                        name: match &sd.name {
                            Some(n) => Some(n.clone()),
                            None => None,
                        },
                        color: match &sd.color {
                            Some(c) => Some(c.clone()),
                            None => None,
                        },
                        contained_items: contained,
                        empty: sd.empty,
                    },
                )
            },
            None => None,
        };
        Item {
            item_id: self.item_id,
            count: self.count,
            data_components: self.data_components.deep_clone(),
            stack_size: self.stack_size,
            stackable_hash: self.stackable_hash,
            full_shulker_stackable_hash: self.full_shulker_stackable_hash,
            shulker_data,
        }
    }
}

/// A declarative description of which items satisfy a request.
pub enum ItemMatchCriteria {
    StackableHash { stackable_hash: u64 },
}

impl ItemMatchCriteria {
    /// Whether the criteria accept this item.
    pub open spec fn spec_matches_item(self, item: ItemV) -> bool {
        match self {
            ItemMatchCriteria::StackableHash { stackable_hash } => item.stackable_hash
                == stackable_hash,
        }
    }

    /// Whether an item satisfies the criteria; hash equality means the items
    /// are of interchangeable kind.
    pub fn matches_item(&self, item: &Item) -> (r: bool)
        ensures
            r == self.spec_matches_item(item_view(*item)),
    {
        match self {
            ItemMatchCriteria::StackableHash { stackable_hash } => item.stackable_hash
                == *stackable_hash,
        }
    }
}

} // verus!
