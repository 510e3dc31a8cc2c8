//! The item catalog: identifier to display name and stack size. It is an
//! explicit dependency handed to the item model, not hidden process state.

use vstd::prelude::*;

verus! {

/// One catalog record.
pub struct CatalogEntry {
    pub id: u32,
    pub name: String,
    pub stack_size: u32,
}

/// The mathematical shape of a catalog record.
pub struct CatalogEntryV {
    pub id: u32,
    pub name: Seq<char>,
    pub stack_size: u32,
}

pub open spec fn entry_view(e: CatalogEntry) -> CatalogEntryV {
    CatalogEntryV { id: e.id, name: e.name@, stack_size: e.stack_size }
}

/// A catalog, looked up by identifier; the first record with a given
/// identifier wins.
pub struct Catalog {
    pub entries: Vec<CatalogEntry>,
}

pub open spec fn cat_view(c: Catalog) -> Seq<CatalogEntryV> {
    Seq::new(
        c.entries@.len(),
        |i: int|
            if 0 <= i < c.entries@.len() {
                entry_view(c.entries@[i])
            } else {
                CatalogEntryV { id: 0, name: Seq::empty(), stack_size: 0 }
            },
    )
}

/// First record with the given identifier, if any.
pub open spec fn cat_lookup(s: Seq<CatalogEntryV>, id: u32) -> Option<CatalogEntryV>
    decreases s.len(),
{
    if s.len() == 0 {
        None
    } else if s[0].id == id {
        Some(s[0])
    } else {
        cat_lookup(s.drop_first(), id)
    }
}

/// Stack size for an identifier: the catalog's figure, or 64 for an
/// identifier the catalog does not know.
pub const DEFAULT_STACK_SIZE: u32 = 64;

pub open spec fn spec_stack_size(s: Seq<CatalogEntryV>, id: u32) -> u32 {
    match cat_lookup(s, id) {
        Some(e) => e.stack_size,
        None => DEFAULT_STACK_SIZE,
    }
}

impl Catalog {
    /// An empty catalog.
    pub fn new() -> (r: Catalog)
        ensures
            cat_view(r) == Seq::<CatalogEntryV>::empty(),
    {
        let r = Catalog { entries: Vec::new() };
        proof {
            assert(cat_view(r) =~= Seq::<CatalogEntryV>::empty());
        }
        r
    }

    /// Appends a record.
    pub fn add(&mut self, id: u32, name: String, stack_size: u32)
        ensures
            cat_view(*final(self)) == cat_view(*old(self)).push(
                CatalogEntryV { id, name: name@, stack_size },
            ),
    {
        let ghost prev = cat_view(*self);
        let ghost pushed_name = name@;
        self.entries.push(CatalogEntry { id, name, stack_size });
        proof {
            assert(cat_view(*self) =~= prev.push(
                CatalogEntryV { id, name: pushed_name, stack_size },
            ));
        }
    }

    /// First record with the given identifier.
    pub fn lookup(&self, id: u32) -> (r: Option<&CatalogEntry>)
        ensures
            match r {
                Some(e) => cat_lookup(cat_view(*self), id) == Some(entry_view(*e)),
                None => cat_lookup(cat_view(*self), id) is None,
            },
    {
        let ghost s = cat_view(*self);
        proof {
            assert(s.skip(0) =~= s);
        }
        let mut i: usize = 0;
        while i < self.entries.len()
            invariant
                0 <= i <= self.entries@.len(),
                s == cat_view(*self),
                s.len() == self.entries@.len(),
                cat_lookup(s, id) == cat_lookup(s.skip(i as int), id),
            decreases self.entries@.len() - i,
        {
            proof {
                assert(s.skip(i as int)[0] == s[i as int]);
            }
            if self.entries[i].id == id {
                return Some(&self.entries[i]);
            }
            proof {
                assert(s.skip(i as int).drop_first() =~= s.skip(i + 1));
            }
            i += 1;
        }
        None
    }

    /// Stack size for an identifier, with the default for unknown ones.
    pub fn stack_size_of(&self, id: u32) -> (r: u32)
        ensures
            r == spec_stack_size(cat_view(*self), id),
    {
        match self.lookup(id) {
            Some(e) => e.stack_size,
            None => DEFAULT_STACK_SIZE,
        }
    }
}

} // verus!
