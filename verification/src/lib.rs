//! A typed data-access core over a relational database: declared entity
//! schemas are diffed against the live catalog to generate migration
//! scripts, and entity instances track per-field modifications that a
//! context flushes through a middleware chain.

use vstd::prelude::*;

pub mod apply;
pub mod cache;
pub mod context;
pub mod entity;
pub mod entity_meta;
pub mod live_schema;
pub mod migration;
pub mod sql_gen;
pub mod storage;
pub mod text;

verus! {

/// Tri-state holder for one scalar field of an entity.
///
/// `Unset` means the field was never loaded nor assigned; reading it is a
/// programmer error. `Loaded` holds a value confirmed by storage and not
/// locally modified. `Modified` holds a locally assigned value pending
/// flush.
#[derive(Debug, Clone, PartialEq, Eq)]
pub enum EntityField<T> {
    Loaded(T),
    Modified(T),
    Unset,
}

impl<T> EntityField<T> {
    /// The value currently held, if any.
    pub open spec fn spec_value(self) -> Option<T> {
        match self {
            EntityField::Loaded(v) => Some(v),
            EntityField::Modified(v) => Some(v),
            EntityField::Unset => None,
        }
    }

    pub open spec fn spec_is_modified(self) -> bool {
        self is Modified
    }

    /// Reads the held value; reading an `Unset` field is excluded.
    pub fn get(&self) -> (r: &T)
        requires
            !(self is Unset),
        ensures
            self.spec_value() == Some(*r),
    {
        match self {
            EntityField::Loaded(v) => v,
            EntityField::Modified(v) => v,
            EntityField::Unset => unreached(),
        }
    }

    pub fn is_modified(&self) -> (r: bool)
        ensures
            r == self.spec_is_modified(),
    {
        match self {
            EntityField::Loaded(_) => false,
            EntityField::Modified(_) => true,
            EntityField::Unset => false,
        }
    }

    /// A local assignment: the field becomes `Modified` with the new value,
    /// whatever state it was in before.
    pub fn assign(&mut self, value: T)
        ensures
            *final(self) == EntityField::Modified(value),
    {
        *self = EntityField::Modified(value);
    }

    /// Records the value returned by storage after a successful flush: the
    /// field becomes `Loaded` and is no longer marked modified.
    pub fn confirm(&mut self, value: T)
        ensures
            *final(self) == EntityField::Loaded(value),
            !final(self).spec_is_modified(),
    {
        *self = EntityField::Loaded(value);
    }
}

} // verus!

