//! Entity instances: one tri-state field per declared column, and the
//! type-tagged identity key derived from the primary-key field values.

use vstd::prelude::*;
use crate::entity_meta::{field_idx, lemma_field_idx, EntityMeta, FieldType};
use crate::text::str_eq;
use crate::EntityField;

verus! {

/// One scalar value, tagged with its declared type.
#[derive(Debug)]
pub enum Value {
    I32(i32),
    Text(String),
}

/// Value equality: same tag and same contents.
pub open spec fn value_eq(a: Value, b: Value) -> bool {
    match (a, b) {
        (Value::I32(x), Value::I32(y)) => x == y,
        (Value::Text(x), Value::Text(y)) => x@ == y@,
        _ => false,
    }
}

impl Value {
    pub open spec fn matches_type(self, ty: FieldType) -> bool {
        match self {
            Value::I32(_) => ty is I32,
            Value::Text(_) => ty is Text,
        }
    }

    pub fn has_type(&self, ty: FieldType) -> (r: bool)
        ensures
            r == self.matches_type(ty),
    {
        match self {
            Value::I32(_) => match ty {
                FieldType::I32 => true,
                FieldType::Text => false,
            },
            Value::Text(_) => match ty {
                FieldType::I32 => false,
                FieldType::Text => true,
            },
        }
    }

    /// An exact copy of the value.
    pub fn duplicate(&self) -> (r: Value)
        ensures
            r == *self,
    {
        match self {
            Value::I32(x) => Value::I32(*x),
            Value::Text(s) => Value::Text(s.clone()),
        }
    }
}

/// Compares two values, as `value_eq` does.
pub fn eq_value(a: &Value, b: &Value) -> (r: bool)
    ensures
        r == value_eq(*a, *b),
{
    match (a, b) {
        (Value::I32(x), Value::I32(y)) => *x == *y,
        (Value::Text(x), Value::Text(y)) => String::eq(x, y),
        _ => false,
    }
}

/// The identity of one entity instance: the primary-key tuple, tagged
/// with the entity type it belongs to, so that instances of distinct
/// types can never compare equal however their tuples look.
#[derive(Debug)]
pub struct Key {
    pub type_tag: String,
    pub parts: Vec<Value>,
}

/// Key equality: same type tag, then the tuples element for element.
pub open spec fn key_eq_spec(a: Key, b: Key) -> bool {
    &&& a.type_tag@ == b.type_tag@
    &&& a.parts@.len() == b.parts@.len()
    &&& forall|i: int| 0 <= i < a.parts@.len() ==> value_eq(#[trigger] a.parts@[i], b.parts@[i])
}

impl Key {
    pub fn key_eq(&self, other: &Key) -> (r: bool)
        ensures
            r == key_eq_spec(*self, *other),
    {
        if !str_eq(self.type_tag.as_str(), other.type_tag.as_str()) {
            return false;
        }
        if self.parts.len() != other.parts.len() {
            return false;
        }
        let mut i: usize = 0;
        while i < self.parts.len()
            invariant
                self.parts@.len() == other.parts@.len(),
                i <= self.parts@.len(),
                self.type_tag@ == other.type_tag@,
                forall|k: int| 0 <= k < i ==> value_eq(#[trigger] self.parts@[k], other.parts@[k]),
            decreases self.parts@.len() - i,
        {
            if !eq_value(&self.parts[i], &other.parts[i]) {
                return false;
            }
            i = i + 1;
        }
        true
    }
}

/// Two keys of distinct entity types are never equal, even when their
/// primary-key tuples coincide.
pub proof fn lemma_distinct_types_distinct_keys(a: Key, b: Key)
    requires
        a.type_tag@ != b.type_tag@,
    ensures
        !key_eq_spec(a, b),
{
}

/// One entity instance: its metadata and one tri-state field per declared
/// column, in declaration order.
#[derive(Debug)]
pub struct EntityInstance {
    pub meta: EntityMeta,
    pub fields: Vec<EntityField<Value>>,
}

impl EntityInstance {
    /// Valid instance: well-formed metadata, one field slot per declared
    /// column, and every held value of the declared type.
    pub open spec fn wf(self) -> bool {
        &&& self.meta.wf()
        &&& self.fields@.len() == self.meta.fields@.len()
        &&& forall|i: int|
            0 <= i < self.fields@.len() ==> (match (#[trigger] self.fields@[i]).spec_value() {
                Some(v) => v.matches_type(self.meta.fields@[i].ty),
                None => true,
            })
    }

    /// A fresh instance: every field starts `Unset`.
    pub fn new(meta: EntityMeta) -> (r: Self)
        ensures
            r.meta == meta,
            r.fields@.len() == meta.fields@.len(),
            forall|i: int| 0 <= i < r.fields@.len() ==> (#[trigger] r.fields@[i]) is Unset,
            meta.wf() ==> r.wf(),
    {
        let n = meta.fields.len();
        let mut fields: Vec<EntityField<Value>> = Vec::new();
        while fields.len() < n
            invariant
                fields@.len() <= n,
                forall|i: int| 0 <= i < fields@.len() ==> (#[trigger] fields@[i]) is Unset,
            decreases n - fields@.len(),
        {
            fields.push(EntityField::Unset);
        }
        EntityInstance { meta, fields }
    }

    /// Runtime form of `wf`, for callers outside verified code.
    pub fn check_wf(&self) -> (r: bool)
        ensures
            r == self.wf(),
    {
        if !self.meta.check_wf() {
            return false;
        }
        if self.fields.len() != self.meta.fields.len() {
            return false;
        }
        let mut i: usize = 0;
        while i < self.fields.len()
            invariant
                self.fields@.len() == self.meta.fields@.len(),
                i <= self.fields@.len(),
                forall|k: int|
                    0 <= k < i ==> (match (#[trigger] self.fields@[k]).spec_value() {
                        Some(v) => v.matches_type(self.meta.fields@[k].ty),
                        None => true,
                    }),
            decreases self.fields@.len() - i,
        {
            let ok = match &self.fields[i] {
                EntityField::Unset => true,
                EntityField::Loaded(v) => v.has_type(self.meta.fields[i].ty),
                EntityField::Modified(v) => v.has_type(self.meta.fields[i].ty),
            };
            if !ok {
                return false;
            }
            i = i + 1;
        }
        true
    }

    /// A local assignment: the addressed field becomes `Modified` with the
    /// new value; every other field is untouched.
    pub fn set_field(&mut self, i: usize, value: Value)
        requires
            i < old(self).fields@.len(),
            value.matches_type(old(self).meta.fields@[i as int].ty),
        ensures
            final(self).meta == old(self).meta,
            final(self).fields@ == old(self).fields@.update(
                i as int,
                EntityField::Modified(value),
            ),
            old(self).wf() ==> final(self).wf(),
    {
        self.fields[i] = EntityField::Modified(value);
        proof {
            assert(final(self).fields@ =~= old(self).fields@.update(
                i as int,
                EntityField::Modified(value),
            ));
        }
    }

    /// Reads the addressed field; reading an `Unset` field is excluded.
    pub fn get_field(&self, i: usize) -> (r: &Value)
        requires
            i < self.fields@.len(),
            !(self.fields@[i as int] is Unset),
        ensures
            self.fields@[i as int].spec_value() == Some(*r),
    {
        self.fields[i].get()
    }

    /// Whether every primary-key field is declared and holds a value, so
    /// that the identity key is known.
    pub open spec fn key_ready(self) -> bool {
        forall|k: int|
            0 <= k < self.meta.primary_key@.len() ==> {
                let fi = field_idx(
                    self.meta.fields@,
                    (#[trigger] self.meta.primary_key@[k])@,
                );
                &&& fi < self.meta.fields@.len()
                &&& fi < self.fields@.len()
                &&& !(self.fields@[fi] is Unset)
            }
    }

    /// The primary-key tuple, read off the field slots in key order.
    pub open spec fn spec_key_parts(self) -> Seq<Value> {
        Seq::new(
            self.meta.primary_key@.len() as nat,
            |k: int|
                self.fields@[field_idx(
                    self.meta.fields@,
                    self.meta.primary_key@[k]@,
                )].spec_value()->Some_0,
        )
    }

    /// The identity key, once all primary-key fields are known; absent
    /// before that.
    pub fn id(&self) -> (r: Option<Key>)
        requires
            self.wf(),
        ensures
            (r is Some) == self.key_ready(),
            r matches Some(key) ==> key.type_tag@ == self.meta.table_name@ && key.parts@
                == self.spec_key_parts(),
    {
        let mut parts: Vec<Value> = Vec::new();
        let mut k: usize = 0;
        while k < self.meta.primary_key.len()
            invariant
                self.wf(),
                k <= self.meta.primary_key@.len(),
                parts@ =~= self.spec_key_parts().take(k as int),
                forall|t: int|
                    0 <= t < k ==> {
                        let fi = field_idx(
                            self.meta.fields@,
                            (#[trigger] self.meta.primary_key@[t])@,
                        );
                        &&& fi < self.meta.fields@.len()
                        &&& fi < self.fields@.len()
                        &&& !(self.fields@[fi] is Unset)
                    },
            decreases self.meta.primary_key@.len() - k,
        {
            match self.meta.field_position(self.meta.primary_key[k].as_str()) {
                None => {
                    proof {
                        lemma_field_idx(self.meta.fields@, self.meta.primary_key@[k as int]@);
                        assert(!self.key_ready());
                    }
                    return None;
                },
                Some(fi) => {
                    match &self.fields[fi] {
                        EntityField::Unset => {
                            proof {
                                assert(!self.key_ready());
                            }
                            return None;
                        },
                        EntityField::Loaded(v) => {
                            parts.push(v.duplicate());
                        },
                        EntityField::Modified(v) => {
                            parts.push(v.duplicate());
                        },
                    }
                    proof {
                        assert(parts@ =~= self.spec_key_parts().take(k as int + 1));
                    }
                },
            }
            k = k + 1;
        }
        proof {
            assert(parts@ =~= self.spec_key_parts());
        }
        Some(Key { type_tag: self.meta.table_name.clone(), parts })
    }
}

} // verus!
