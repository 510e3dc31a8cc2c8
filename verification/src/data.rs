//! The metadata blob attached to an item: an order-preserving, loosely
//! structured tree of values, together with the schema-matching lookups the
//! item model uses to reach into it.

use vstd::prelude::*;

verus! {

/// An item's metadata blob. Objects preserve the field order they were
/// built with; that order is part of the item's identity.
pub enum DataValue {
    Null,
    Bool(bool),
    UInt(u64),
    Str(String),
    Array(Vec<DataValue>),
    Object(Vec<(String, DataValue)>),
}

/// The mathematical shape of a metadata blob.
pub enum DataVal {
    Null,
    Bool(bool),
    UInt(u64),
    Str(Seq<char>),
    Arr(Seq<DataVal>),
    Obj(Seq<(Seq<char>, DataVal)>),
}

/// The shape a `DataValue` stands for.
pub open spec fn dv_view(v: DataValue) -> DataVal
    decreases v,
{
    match v {
        DataValue::Null => DataVal::Null,
        DataValue::Bool(b) => DataVal::Bool(b),
        DataValue::UInt(n) => DataVal::UInt(n),
        DataValue::Str(s) => DataVal::Str(s@),
        DataValue::Array(a) => DataVal::Arr(views_of(a@)),
        DataValue::Object(o) => DataVal::Obj(field_views(o@)),
    }
}

/// The shapes of a sequence of blobs, element by element.
pub open spec fn views_of(a: Seq<DataValue>) -> Seq<DataVal>
    decreases a,
{
    Seq::new(
        a.len(),
        |i: int|
            if 0 <= i < a.len() {
                dv_view(a[i])
            } else {
                DataVal::Null
            },
    )
}

/// The shapes of an object's fields, key and value, in order.
pub open spec fn field_views(o: Seq<(String, DataValue)>) -> Seq<(Seq<char>, DataVal)>
    decreases o,
{
    Seq::new(
        o.len(),
        |i: int|
            if 0 <= i < o.len() {
                (o[i].0@, dv_view(o[i].1))
            } else {
                (Seq::empty(), DataVal::Null)
            },
    )
}

/// Nesting depth of a blob, used as a measure for recursive decoding.
pub open spec fn dv_height(v: DataVal) -> nat
    decreases v,
{
    match v {
        DataVal::Arr(s) => 1 + dv_height_seq(s),
        DataVal::Obj(fs) => 1 + dv_height_fields(fs),
        _ => 0,
    }
}

pub open spec fn dv_height_seq(s: Seq<DataVal>) -> nat
    decreases s,
{
    if s.len() == 0 {
        0
    } else {
        let h = dv_height(s[0]);
        let rest = dv_height_seq(s.drop_first());
        if h > rest {
            h
        } else {
            rest
        }
    }
}

pub open spec fn dv_height_fields(fs: Seq<(Seq<char>, DataVal)>) -> nat
    decreases fs,
{
    if fs.len() == 0 {
        0
    } else {
        let h = dv_height(fs[0].1);
        let rest = dv_height_fields(fs.drop_first());
        if h > rest {
            h
        } else {
            rest
        }
    }
}

pub proof fn lemma_height_seq_elem(s: Seq<DataVal>, i: int)
    requires
        0 <= i < s.len(),
    ensures
        dv_height(s[i]) <= dv_height_seq(s),
    decreases s.len(),
{
    if i == 0 {
    } else {
        lemma_height_seq_elem(s.drop_first(), i - 1);
        assert(s.drop_first()[i - 1] == s[i]);
    }
}

pub proof fn lemma_height_fields_elem(fs: Seq<(Seq<char>, DataVal)>, i: int)
    requires
        0 <= i < fs.len(),
    ensures
        dv_height(fs[i].1) <= dv_height_fields(fs),
    decreases fs.len(),
{
    if i == 0 {
    } else {
        lemma_height_fields_elem(fs.drop_first(), i - 1);
        assert(fs.drop_first()[i - 1] == fs[i]);
    }
}

/// First field of an object with the given key, if the blob is an object
/// holding one.
pub open spec fn obj_get(v: DataVal, key: Seq<char>) -> Option<DataVal> {
    match v {
        DataVal::Obj(fs) => fields_get(fs, key),
        _ => None,
    }
}

pub open spec fn fields_get(fs: Seq<(Seq<char>, DataVal)>, key: Seq<char>) -> Option<DataVal>
    decreases fs.len(),
{
    if fs.len() == 0 {
        None
    } else if fs[0].0 == key {
        Some(fs[0].1)
    } else {
        fields_get(fs.drop_first(), key)
    }
}

/// A field reached by `obj_get` sits strictly below the object it came from.
pub proof fn lemma_obj_get_height(v: DataVal, key: Seq<char>)
    requires
        obj_get(v, key) is Some,
    ensures
        dv_height(obj_get(v, key)->Some_0) < dv_height(v),
{
    match v {
        DataVal::Obj(fs) => {
            lemma_fields_get_height(fs, key);
        },
        _ => {},
    }
}

proof fn lemma_fields_get_height(fs: Seq<(Seq<char>, DataVal)>, key: Seq<char>)
    requires
        fields_get(fs, key) is Some,
    ensures
        dv_height(fields_get(fs, key)->Some_0) <= dv_height_fields(fs),
    decreases fs.len(),
{
    if fs.len() == 0 {
    } else if fs[0].0 == key {
        lemma_height_fields_elem(fs, 0);
    } else {
        lemma_fields_get_height(fs.drop_first(), key);
        assert(dv_height_fields(fs.drop_first()) <= dv_height_fields(fs));
    }
}

/// Whether two string slices hold the same characters.
pub fn str_eq(a: &str, b: &str) -> (r: bool)
    ensures
        r == (a@ == b@),
{
    let a_len = a.unicode_len();
    let b_len = b.unicode_len();
    if a_len != b_len {
        return false;
    }
    let mut i: usize = 0;
    while i < a_len
        invariant
            0 <= i <= a_len,
            a_len == a@.len(),
            a_len == b@.len(),
            forall|j: int| 0 <= j < i ==> a@[j] == b@[j],
        decreases a_len - i,
    {
        if a.get_char(i) != b.get_char(i) {
            return false;
        }
        i += 1;
    }
    proof {
        assert(a@ =~= b@);
    }
    true
}

impl DataValue {
    /// A structurally equal copy of the blob.
    pub fn deep_clone(&self) -> (r: DataValue)
        ensures
            dv_view(r) == dv_view(*self),
        decreases dv_height(dv_view(*self)),
    {
        match self {
            DataValue::Null => DataValue::Null,
            DataValue::Bool(b) => DataValue::Bool(*b),
            DataValue::UInt(n) => DataValue::UInt(*n),
            DataValue::Str(s) => DataValue::Str(s.clone()),
            DataValue::Array(a) => {
                let mut out: Vec<DataValue> = Vec::new();
                let mut i: usize = 0;
                while i < a.len()
                    invariant
                        0 <= i <= a.len(),
                        out@.len() == i,
                        forall|j: int| 0 <= j < i ==> dv_view(out@[j]) == dv_view(a@[j]),
                        dv_view(*self) == DataVal::Arr(views_of(a@)),
                    decreases a.len() - i,
                {
                    proof {
                        lemma_height_seq_elem(views_of(a@), i as int);
                    }
                    let c = a[i].deep_clone();
                    out.push(c);
                    i += 1;
                }
                proof {
                    assert(views_of(out@) =~= views_of(a@));
                }
                DataValue::Array(out)
            },
            DataValue::Object(o) => {
                let mut out: Vec<(String, DataValue)> = Vec::new();
                let mut i: usize = 0;
                while i < o.len()
                    invariant
                        0 <= i <= o.len(),
                        out@.len() == i,
                        forall|j: int| 0 <= j < i ==> out@[j].0@ == o@[j].0@ && dv_view(
                            out@[j].1,
                        ) == dv_view(o@[j].1),
                        dv_view(*self) == DataVal::Obj(field_views(o@)),
                    decreases o.len() - i,
                {
                    proof {
                        lemma_height_fields_elem(field_views(o@), i as int);
                    }
                    let key = o[i].0.clone();
                    let c = o[i].1.deep_clone();
                    out.push((key, c));
                    i += 1;
                }
                proof {
                    assert(field_views(out@) =~~= field_views(o@));
                }
                DataValue::Object(out)
            },
        }
    }

    /// Field of this blob under `key`, when the blob is an object that has it.
    pub fn get_field<'a>(&'a self, key: &str) -> (r: Option<&'a DataValue>)
        ensures
            match r {
                Some(sub) => obj_get(dv_view(*self), key@) == Some(dv_view(*sub)),
                None => obj_get(dv_view(*self), key@) is None,
            },
    {
        match self {
            DataValue::Object(o) => {
                let ghost fields = field_views(o@);
                proof {
                    assert(fields.skip(0) =~= fields);
                }
                let mut i: usize = 0;
                while i < o.len()
                    invariant
                        0 <= i <= o.len(),
                        dv_view(*self) == DataVal::Obj(fields),
                        fields == field_views(o@),
                        fields.len() == o@.len(),
                        fields_get(fields, key@) == fields_get(fields.skip(i as int), key@),
                    decreases o.len() - i,
                {
                    proof {
                        assert(fields.skip(i as int)[0] == fields[i as int]);
                    }
                    if str_eq(o[i].0.as_str(), key) {
                        proof {
                            assert(fields_get(fields.skip(i as int), key@) == Some(
                                fields[i as int].1,
                            ));
                        }
                        return Some(&o[i].1);
                    }
                    proof {
                        assert(fields.skip(i as int).drop_first() =~= fields.skip(i + 1));
                    }
                    i += 1;
                }
                proof {
                    assert(fields.skip(i as int).len() == 0);
                }
                None
            },
            _ => None,
        }
    }

    /// The elements of this blob, when it is an array.
    pub fn as_array<'a>(&'a self) -> (r: Option<&'a Vec<DataValue>>)
        ensures
            match r {
                Some(a) => dv_view(*self) == DataVal::Arr(views_of(a@)),
                None => !(dv_view(*self) is Arr),
            },
    {
        match self {
            DataValue::Array(a) => Some(a),
            _ => None,
        }
    }

    /// The characters of this blob, when it is a string.
    pub fn as_str<'a>(&'a self) -> (r: Option<&'a String>)
        ensures
            match r {
                Some(s) => dv_view(*self) == DataVal::Str(s@),
                None => !(dv_view(*self) is Str),
            },
    {
        match self {
            DataValue::Str(s) => Some(s),
            _ => None,
        }
    }

    /// The numeric value of this blob, when it is an unsigned number.
    pub fn as_uint(&self) -> (r: Option<u64>)
        ensures
            match r {
                Some(n) => dv_view(*self) == DataVal::UInt(n),
                None => !(dv_view(*self) is UInt),
            },
    {
        match self {
            DataValue::UInt(n) => Some(*n),
            _ => None,
        }
    }

    /// Whether this blob is the null value.
    pub fn is_null(&self) -> (r: bool)
        ensures
            r == (dv_view(*self) is Null),
    {
        match self {
            DataValue::Null => true,
            _ => false,
        }
    }
}

} // verus!
