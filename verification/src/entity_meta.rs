//! Declarative description of each entity's table: field names and types,
//! the composite primary key, and database-side identity generation.

use vstd::prelude::*;
use crate::text::{lex_lt, str_eq, str_lt};

verus! {

/// The scalar types an entity field can have.
#[derive(Debug, Clone, Copy, PartialEq, Eq, Structural)]
pub enum FieldType {
    I32,
    Text,
}

/// Database-generated primary-key semantics: the database either always
/// computes the value or only supplies it as a default.
#[derive(Debug, Clone, Copy, PartialEq, Eq, Structural)]
pub enum IdentityGeneration {
    Always,
    ByDefault,
}

impl IdentityGeneration {
    /// Parses the catalog's identity-generation label. Labels other than
    /// the two the dialect emits are excluded; `parse_name` accepts any
    /// input.
    pub fn from_name(name: &str) -> (r: Self)
        requires
            name@ == "ALWAYS"@ || name@ == "BY DEFAULT"@,
        ensures
            name@ == "ALWAYS"@ ==> r == IdentityGeneration::Always,
            name@ == "BY DEFAULT"@ ==> r == IdentityGeneration::ByDefault,
    {
        proof {
            reveal_strlit("ALWAYS");
            reveal_strlit("BY DEFAULT");
            assert(("ALWAYS"@).len() == 6);
            assert(("BY DEFAULT"@).len() == 10);
        }
        if str_eq(name, "ALWAYS") {
            IdentityGeneration::Always
        } else {
            IdentityGeneration::ByDefault
        }
    }

    /// Total form of `from_name`: `None` on any label that is not one the
    /// dialect emits.
    pub fn parse_name(name: &str) -> (r: Option<Self>)
        ensures
            r == (if name@ == "ALWAYS"@ {
                Some(IdentityGeneration::Always)
            } else if name@ == "BY DEFAULT"@ {
                Some(IdentityGeneration::ByDefault)
            } else {
                None::<IdentityGeneration>
            }),
    {
        proof {
            reveal_strlit("ALWAYS");
            reveal_strlit("BY DEFAULT");
            assert(("ALWAYS"@).len() == 6);
            assert(("BY DEFAULT"@).len() == 10);
        }
        if str_eq(name, "ALWAYS") {
            Some(IdentityGeneration::Always)
        } else if str_eq(name, "BY DEFAULT") {
            Some(IdentityGeneration::ByDefault)
        } else {
            None
        }
    }
}

/// One declared column: its name, scalar type, nullability, and identity
/// generation mode, if any.
#[derive(Debug, Clone)]
pub struct FieldMeta {
    pub name: String,
    pub ty: FieldType,
    pub optional: bool,
    pub identity_generation: Option<IdentityGeneration>,
}

/// The declared shape of one entity's table. Fields are kept strictly
/// sorted by name so that everything generated from the metadata is
/// deterministic; the primary key is an ordered list of field names.
#[derive(Debug, Clone)]
pub struct EntityMeta {
    pub table_name: String,
    pub fields: Vec<FieldMeta>,
    pub primary_key: Vec<String>,
}

impl EntityMeta {
    /// The declared field names, in declaration (sorted) order.
    pub open spec fn field_names(self) -> Seq<Seq<char>> {
        self.fields@.map_values(|f: FieldMeta| f.name@)
    }

    pub open spec fn has_field(self, name: Seq<char>) -> bool {
        exists|i: int| 0 <= i < self.fields@.len() && self.fields@[i].name@ == name
    }

    /// Well-formed metadata: fields strictly sorted by name (hence names
    /// unique), and every primary-key entry names a declared field.
    pub open spec fn wf(self) -> bool {
        &&& forall|i: int, j: int|
            0 <= i < j < self.fields@.len() ==> lex_lt(
                self.fields@[i].name@,
                self.fields@[j].name@,
            )
        &&& forall|k: int|
            0 <= k < self.primary_key@.len() ==> self.has_field(self.primary_key@[k]@)
    }

    /// Runtime well-formedness check, for callers outside verified code.
    pub fn check_wf(&self) -> (r: bool)
        ensures
            r == self.wf(),
    {
        let n = self.fields.len();
        let mut i: usize = 0;
        while 1 < n && i < n - 1
            invariant
                n == self.fields@.len(),
                i <= n,
                forall|p: int, q: int|
                    0 <= p < q < self.fields@.len() && q <= i ==> lex_lt(
                        self.fields@[p].name@,
                        self.fields@[q].name@,
                    ),
            decreases n - i,
        {
            if !str_lt(self.fields[i].name.as_str(), self.fields[i + 1].name.as_str()) {
                return false;
            }
            proof {
                assert forall|p: int| 0 <= p < i as int implies lex_lt(
                    #[trigger] self.fields@[p].name@,
                    self.fields@[i as int + 1].name@,
                ) by {
                    crate::text::lemma_lex_lt_trans(
                        self.fields@[p].name@,
                        self.fields@[i as int].name@,
                        self.fields@[i as int + 1].name@,
                    );
                }
            }
            i = i + 1;
        }
        let mut k: usize = 0;
        while k < self.primary_key.len()
            invariant
                forall|p: int, q: int|
                    0 <= p < q < self.fields@.len() ==> lex_lt(
                        self.fields@[p].name@,
                        self.fields@[q].name@,
                    ),
                k <= self.primary_key@.len(),
                forall|t: int| 0 <= t < k ==> self.has_field(self.primary_key@[t]@),
            decreases self.primary_key@.len() - k,
        {
            if !self.find_field(self.primary_key[k].as_str()) {
                return false;
            }
            k = k + 1;
        }
        true
    }

    /// The position of the declared field with the given name, if any.
    pub fn field_position(&self, name: &str) -> (r: Option<usize>)
        ensures
            (r is Some) == self.has_field(name@),
            r matches Some(i) ==> i == field_idx(self.fields@, name@) && i < self.fields@.len(),
    {
        proof {
            lemma_field_idx(self.fields@, name@);
            assert(self.fields@.skip(0) =~= self.fields@);
        }
        let mut i: usize = 0;
        while i < self.fields.len()
            invariant
                i <= self.fields@.len(),
                field_idx(self.fields@, name@) == i + field_idx(
                    self.fields@.skip(i as int),
                    name@,
                ),
                forall|k: int| 0 <= k < i ==> (#[trigger] self.fields@[k]).name@ != name@,
                0 <= field_idx(self.fields@, name@) <= self.fields@.len(),
                field_idx(self.fields@, name@) < self.fields@.len() ==> self.fields@[field_idx(
                    self.fields@,
                    name@,
                )].name@ == name@,
                (field_idx(self.fields@, name@) < self.fields@.len()) == self.has_field(name@),
            decreases self.fields@.len() - i,
        {
            proof {
                assert(self.fields@.skip(i as int).skip(1) =~= self.fields@.skip(i as int + 1));
                assert(self.fields@.skip(i as int)[0] == self.fields@[i as int]);
            }
            if str_eq(self.fields[i].name.as_str(), name) {
                return Some(i);
            }
            i = i + 1;
        }
        proof {
            assert(self.fields@.skip(i as int) =~= Seq::<FieldMeta>::empty());
        }
        None
    }

    /// Whether a field of the given name is declared.
    pub fn find_field(&self, name: &str) -> (r: bool)
        ensures
            r == self.has_field(name@),
    {
        let mut i: usize = 0;
        while i < self.fields.len()
            invariant
                i <= self.fields@.len(),
                forall|k: int| 0 <= k < i ==> self.fields@[k].name@ != name@,
            decreases self.fields@.len() - i,
        {
            if str_eq(self.fields[i].name.as_str(), name) {
                return true;
            }
            i = i + 1;
        }
        false
    }
}

/// The position of the first field of the given name; the sequence length
/// when no field has it.
pub open spec fn field_idx(fields: Seq<FieldMeta>, name: Seq<char>) -> int
    decreases fields.len(),
{
    if fields.len() == 0 {
        0
    } else if fields[0].name@ == name {
        0
    } else {
        1 + field_idx(fields.skip(1), name)
    }
}

pub proof fn lemma_field_idx(fields: Seq<FieldMeta>, name: Seq<char>)
    ensures
        0 <= field_idx(fields, name) <= fields.len(),
        field_idx(fields, name) < fields.len() ==> fields[field_idx(fields, name)].name@ == name,
        (field_idx(fields, name) < fields.len()) == (exists|i: int|
            0 <= i < fields.len() && fields[i].name@ == name),
    decreases fields.len(),
{
    if fields.len() == 0 {
    } else if fields[0].name@ == name {
    } else {
        lemma_field_idx(fields.skip(1), name);
        if field_idx(fields.skip(1), name) < fields.skip(1).len() {
            assert(fields[field_idx(fields, name)].name@ == name);
        }
        if exists|i: int| 0 <= i < fields.len() && fields[i].name@ == name {
            let i = choose|i: int| 0 <= i < fields.len() && fields[i].name@ == name;
            assert(fields.skip(1)[i - 1] == fields[i]);
            assert(exists|j: int|
                0 <= j < fields.skip(1).len() && fields.skip(1)[j].name@ == name);
        }
    }
}

/// The first declared entity of the given table name, scanning in order.
pub open spec fn meta_find(s: Seq<EntityMeta>, name: Seq<char>) -> Option<EntityMeta>
    decreases s.len(),
{
    if s.len() == 0 {
        None
    } else if s[0].table_name@ == name {
        Some(s[0])
    } else {
        meta_find(s.skip(1), name)
    }
}

/// Finds a declared entity by table name, as `meta_find` does.
pub fn find_meta<'a>(entities: &'a Vec<EntityMeta>, name: &str) -> (r: Option<&'a EntityMeta>)
    ensures
        match r {
            Some(m) => meta_find(entities@, name@) == Some(*m),
            None => meta_find(entities@, name@) is None,
        },
{
    let mut i: usize = 0;
    proof {
        assert(entities@.skip(0) =~= entities@);
    }
    while i < entities.len()
        invariant
            i <= entities@.len(),
            meta_find(entities@, name@) == meta_find(entities@.skip(i as int), name@),
        decreases entities@.len() - i,
    {
        proof {
            assert(entities@.skip(i as int).skip(1) =~= entities@.skip(i as int + 1));
        }
        assert(entities@.skip(i as int)[0] == entities@[i as int]);
        if str_eq(entities[i].table_name.as_str(), name) {
            return Some(&entities[i]);
        }
        i = i + 1;
    }
    assert(entities@.skip(i as int) =~= Seq::<EntityMeta>::empty());
    None
}

/// A declared schema: the entity metadata set, strictly sorted by table
/// name.
pub open spec fn schema_wf(s: Seq<EntityMeta>) -> bool {
    &&& forall|i: int| 0 <= i < s.len() ==> (#[trigger] s[i]).wf()
    &&& forall|i: int, j: int| 0 <= i < j < s.len() ==> lex_lt(s[i].table_name@, s[j].table_name@)
}

/// Runtime form of `schema_wf`, for callers outside verified code: the
/// declared metadata never changes at runtime, so one check at startup
/// settles it.
pub fn check_schema_wf(entities: &Vec<EntityMeta>) -> (r: bool)
    ensures
        r == schema_wf(entities@),
{
    let n = entities.len();
    let mut i: usize = 0;
    while i < n
        invariant
            n == entities@.len(),
            i <= n,
            forall|k: int| 0 <= k < i ==> (#[trigger] entities@[k]).wf(),
        decreases n - i,
    {
        if !entities[i].check_wf() {
            return false;
        }
        i = i + 1;
    }
    let mut j: usize = 0;
    while 1 < n && j < n - 1
        invariant
            n == entities@.len(),
            forall|k: int| 0 <= k < entities@.len() ==> (#[trigger] entities@[k]).wf(),
            j <= n,
            forall|p: int, q: int|
                0 <= p < q < entities@.len() && q <= j ==> lex_lt(
                    entities@[p].table_name@,
                    entities@[q].table_name@,
                ),
        decreases n - j,
    {
        if !str_lt(entities[j].table_name.as_str(), entities[j + 1].table_name.as_str()) {
            return false;
        }
        proof {
            assert forall|p: int| 0 <= p < j as int implies lex_lt(
                #[trigger] entities@[p].table_name@,
                entities@[j as int + 1].table_name@,
            ) by {
                crate::text::lemma_lex_lt_trans(
                    entities@[p].table_name@,
                    entities@[j as int].table_name@,
                    entities@[j as int + 1].table_name@,
                );
            }
        }
        j = j + 1;
    }
    true
}

} // verus!
