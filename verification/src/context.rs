//! The change-tracked persistence pipeline: the context keeps pending
//! instances and the materialized identity map, and the flush of one
//! instance is split into building the `INSERT`, absorbing the returned
//! row, and filing the instance under its identity key.

use vstd::prelude::*;
use vstd::string::StringExecFns;
use crate::entity::{value_eq, EntityInstance, Key, Value};
use crate::entity_meta::{field_idx, lemma_field_idx, EntityMeta, FieldMeta};
use crate::text::{dec_digits, join_sep, lemma_join_sep_push, push_dec};
use crate::EntityField;

verus! {

/// A column name in quotes.
pub open spec fn quoted_name(n: Seq<char>) -> Seq<char> {
    "\""@ + n + "\""@
}

/// All declared column names, quoted, in declaration order.
pub open spec fn all_names(metas: Seq<FieldMeta>) -> Seq<Seq<char>> {
    metas.map_values(|f: FieldMeta| quoted_name(f.name@))
}

/// The quoted names of the fields whose state is `Modified`, in
/// declaration order.
pub open spec fn modified_names(metas: Seq<FieldMeta>, fs: Seq<EntityField<Value>>) -> Seq<
    Seq<char>,
>
    decreases metas.len(),
{
    if metas.len() == 0 || fs.len() == 0 {
        Seq::<Seq<char>>::empty()
    } else {
        (if fs[0] is Modified {
            seq![quoted_name(metas[0].name@)]
        } else {
            Seq::<Seq<char>>::empty()
        }) + modified_names(metas.skip(1), fs.skip(1))
    }
}

/// The values of the fields whose state is `Modified`, in declaration
/// order: exactly what the statement binds.
pub open spec fn modified_values(fs: Seq<EntityField<Value>>) -> Seq<Value>
    decreases fs.len(),
{
    if fs.len() == 0 {
        Seq::<Value>::empty()
    } else {
        (match fs[0] {
            EntityField::Modified(v) => seq![v],
            _ => Seq::<Value>::empty(),
        }) + modified_values(fs.skip(1))
    }
}

/// The parameter placeholders `$1` through `$n`.
pub open spec fn param_parts(n: nat) -> Seq<Seq<char>> {
    Seq::new(n, |i: int| "$"@ + dec_digits((i + 1) as nat))
}

/// The full `INSERT` statement for one instance: only modified fields are
/// named and bound, but every declared column is requested back, so that
/// database-computed values can be captured.
pub open spec fn spec_insert_sql(m: EntityMeta, fs: Seq<EntityField<Value>>) -> Seq<char> {
    "INSERT INTO \""@ + m.table_name@ + "\" ("@ + join_sep(modified_names(m.fields@, fs), ", "@)
        + ") VALUES ("@ + join_sep(param_parts(modified_values(fs).len()), ", "@)
        + ") RETURNING "@ + join_sep(all_names(m.fields@), ", "@)
}

/// The terminal aggregate statement over one table.
pub open spec fn spec_aggregate_sql(operation: Seq<char>, table: Seq<char>) -> Seq<char> {
    "SELECT "@ + operation + "(*) FROM \""@ + table + "\";"@
}

/// Renders the terminal aggregate statement.
pub fn aggregate_sql(operation: &str, table: &str) -> (r: String)
    ensures
        r@ == spec_aggregate_sql(operation@, table@),
{
    let mut s = String::new();
    s.append("SELECT ");
    s.append(operation);
    s.append("(*) FROM \"");
    s.append(table);
    s.append("\";");
    proof {
        assert(s@ =~= spec_aggregate_sql(operation@, table@));
    }
    s
}

impl EntityInstance {
    /// Builds the `INSERT` text and the bound values for this instance.
    #[verifier::loop_isolation(false)]
    pub fn build_insert(&self) -> (r: (String, Vec<Value>))
        requires
            self.fields@.len() == self.meta.fields@.len(),
        ensures
            r.0@ == spec_insert_sql(self.meta, self.fields@),
            r.1@ == modified_values(self.fields@),
    {
        let ghost metas = self.meta.fields@;
        let ghost fs = self.fields@;
        let mut mods = String::new();
        let ghost mut mods_parts: Seq<Seq<char>> = Seq::<Seq<char>>::empty();
        let mut params = String::new();
        let mut vals: Vec<Value> = Vec::new();
        let mut first: bool = true;
        let mut i: usize = 0;
        proof {
            assert(metas.skip(0) =~= metas);
            assert(fs.skip(0) =~= fs);
        }
        while i < self.fields.len()
            invariant
                i <= fs.len(),
                mods_parts + modified_names(metas.skip(i as int), fs.skip(i as int))
                    == modified_names(metas, fs),
                vals@ + modified_values(fs.skip(i as int)) == modified_values(fs),
                mods@ == join_sep(mods_parts, ", "@),
                params@ == join_sep(param_parts(vals@.len() as nat), ", "@),
                first == (mods_parts.len() == 0),
                mods_parts.len() == vals@.len(),
                vals@.len() <= i,
            decreases fs.len() - i,
        {
            proof {
                assert(metas.skip(i as int).skip(1) =~= metas.skip(i as int + 1));
                assert(fs.skip(i as int).skip(1) =~= fs.skip(i as int + 1));
                assert(metas.skip(i as int)[0] == metas[i as int]);
                assert(fs.skip(i as int)[0] == fs[i as int]);
            }
            let modified = self.fields[i].is_modified();
            if modified {
                if !first {
                    mods.append(", ");
                    params.append(", ");
                }
                mods.append("\"");
                mods.append(self.meta.fields[i].name.as_str());
                mods.append("\"");
                params.append("$");
                let n = vals.len();
                match &self.fields[i] {
                    EntityField::Modified(v) => {
                        vals.push(v.duplicate());
                    },
                    _ => {
                        proof {
                            assert(false);
                        }
                    },
                }
                push_dec(&mut params, (n + 1) as u64);
                proof {
                    lemma_join_sep_push(mods_parts, ", "@, quoted_name(metas[i as int].name@));
                    mods_parts = mods_parts.push(quoted_name(metas[i as int].name@));
                    assert(mods@ =~= join_sep(mods_parts, ", "@));
                    assert(mods_parts + modified_names(metas.skip(i as int + 1), fs.skip(i as int + 1))
                        =~= modified_names(metas, fs));
                    assert(vals@ + modified_values(fs.skip(i as int + 1)) =~= modified_values(fs));
                    lemma_join_sep_push(
                        param_parts(n as nat),
                        ", "@,
                        "$"@ + dec_digits((n + 1) as nat),
                    );
                    assert(param_parts((n + 1) as nat) =~= param_parts(n as nat).push(
                        "$"@ + dec_digits((n + 1) as nat),
                    ));
                    assert(params@ =~= join_sep(param_parts(vals@.len() as nat), ", "@));
                }
                first = false;
            } else {
                proof {
                    assert(mods_parts + modified_names(metas.skip(i as int + 1), fs.skip(i as int + 1))
                        =~= modified_names(metas, fs));
                    assert(vals@ + modified_values(fs.skip(i as int + 1)) =~= modified_values(fs));
                }
            }
            i = i + 1;
        }
        proof {
            assert(metas.skip(metas.len() as int) =~= Seq::<FieldMeta>::empty());
            assert(fs.skip(fs.len() as int) =~= Seq::<EntityField<Value>>::empty());
            assert(mods_parts + Seq::<Seq<char>>::empty() =~= mods_parts);
            assert(vals@ + Seq::<Value>::empty() =~= vals@);
            assert(mods_parts == modified_names(metas, fs));
            assert(vals@ == modified_values(fs));
        }

        let mut ret = String::new();
        let ghost mut ret_parts: Seq<Seq<char>> = Seq::<Seq<char>>::empty();
        let mut k: usize = 0;
        while k < self.meta.fields.len()
            invariant
                k <= metas.len(),
                ret_parts =~= all_names(metas).take(k as int),
                ret@ == join_sep(ret_parts, ", "@),
            decreases metas.len() - k,
        {
            if k > 0 {
                ret.append(", ");
            }
            ret.append("\"");
            ret.append(self.meta.fields[k].name.as_str());
            ret.append("\"");
            proof {
                lemma_join_sep_push(ret_parts, ", "@, quoted_name(metas[k as int].name@));
                ret_parts = ret_parts.push(quoted_name(metas[k as int].name@));
                assert(ret_parts =~= all_names(metas).take(k as int + 1));
                assert(ret@ =~= join_sep(ret_parts, ", "@));
            }
            k = k + 1;
        }
        proof {
            assert(all_names(metas).take(metas.len() as int) =~= all_names(metas));
        }

        let mut sql = String::new();
        sql.append("INSERT INTO \"");
        sql.append(self.meta.table_name.as_str());
        sql.append("\" (");
        sql.append(mods.as_str());
        sql.append(") VALUES (");
        sql.append(params.as_str());
        sql.append(") RETURNING ");
        sql.append(ret.as_str());
        proof {
            assert(sql@ =~= spec_insert_sql(self.meta, self.fields@));
        }
        (sql, vals)
    }

    /// Absorbs the row the statement returned: every field becomes
    /// `Loaded` with the returned value, clearing the modified marks.
    pub fn apply_row(&mut self, row: &Vec<Value>)
        requires
            row@.len() == old(self).fields@.len(),
            old(self).fields@.len() == old(self).meta.fields@.len(),
            forall|i: int|
                0 <= i < row@.len() ==> (#[trigger] row@[i]).matches_type(
                    old(self).meta.fields@[i].ty,
                ),
        ensures
            final(self).meta == old(self).meta,
            final(self).fields@.len() == row@.len(),
            forall|i: int|
                0 <= i < row@.len() ==> final(self).fields@[i] == EntityField::Loaded(row@[i]),
            forall|i: int| 0 <= i < row@.len() ==> !final(self).fields@[i].spec_is_modified(),
            old(self).wf() ==> final(self).wf(),
    {
        let mut i: usize = 0;
        while i < row.len()
            invariant
                i <= row@.len(),
                row@.len() == self.fields@.len(),
                self.meta == old(self).meta,
                forall|k: int|
                    0 <= k < i ==> self.fields@[k] == EntityField::Loaded(#[trigger] row@[k]),
                forall|k: int| i <= k < row@.len() ==> self.fields@[k] == old(self).fields@[k],
            decreases row@.len() - i,
        {
            self.fields[i] = EntityField::Loaded(row[i].duplicate());
            i = i + 1;
        }
        proof {
            assert forall|k: int|
                0 <= k < row@.len() implies !(#[trigger] self.fields@[k]).spec_is_modified() by {
                assert(self.fields@[k] == EntityField::Loaded(row@[k]));
            }
            if old(self).wf() {
                assert forall|k: int|
                    0 <= k < self.fields@.len() implies (match (
                    #[trigger] self.fields@[k]).spec_value() {
                    Some(v) => v.matches_type(self.meta.fields@[k].ty),
                    None => true,
                }) by {
                    assert(self.fields@[k] == EntityField::Loaded(row@[k]));
                }
                assert(self.wf());
            }
        }
    }
}

/// Whether a returned row fits an instance slot for slot: same arity,
/// and each value of the declared type. Callers outside verified code
/// test this before absorbing a row.
pub fn row_matches(e: &EntityInstance, row: &Vec<Value>) -> (r: bool)
    ensures
        r == (row@.len() == e.fields@.len() && e.fields@.len() == e.meta.fields@.len() && (forall|
        i: int|
            0 <= i < row@.len() ==> (#[trigger] row@[i]).matches_type(e.meta.fields@[i].ty))),
{
    if row.len() != e.fields.len() {
        return false;
    }
    if e.fields.len() != e.meta.fields.len() {
        return false;
    }
    let mut i: usize = 0;
    while i < row.len()
        invariant
            row@.len() == e.fields@.len(),
            e.fields@.len() == e.meta.fields@.len(),
            i <= row@.len(),
            forall|k: int|
                0 <= k < i ==> (#[trigger] row@[k]).matches_type(e.meta.fields@[k].ty),
        decreases row@.len() - i,
    {
        if !row[i].has_type(e.meta.fields[i].ty) {
            return false;
        }
        i = i + 1;
    }
    true
}

/// Whether a stored key has the given type tag and tuple.
pub open spec fn kmatch(k: Key, tag: Seq<char>, parts: Seq<Value>) -> bool {
    &&& k.type_tag@ == tag
    &&& k.parts@.len() == parts.len()
    &&& forall|i: int| 0 <= i < parts.len() ==> value_eq(#[trigger] k.parts@[i], parts[i])
}

/// The position of the first entry whose key matches; the length when
/// none does.
pub open spec fn slot_of(s: Seq<(Key, EntityInstance)>, tag: Seq<char>, parts: Seq<Value>) -> int
    decreases s.len(),
{
    if s.len() == 0 {
        0
    } else if kmatch(s[0].0, tag, parts) {
        0
    } else {
        1 + slot_of(s.skip(1), tag, parts)
    }
}

pub proof fn lemma_slot_of(s: Seq<(Key, EntityInstance)>, tag: Seq<char>, parts: Seq<Value>)
    ensures
        0 <= slot_of(s, tag, parts) <= s.len(),
        slot_of(s, tag, parts) < s.len() ==> kmatch(s[slot_of(s, tag, parts)].0, tag, parts),
    decreases s.len(),
{
    if s.len() == 0 {
    } else if kmatch(s[0].0, tag, parts) {
    } else {
        lemma_slot_of(s.skip(1), tag, parts);
    }
}

/// The context of one unit of work: instances not yet flushed, and the
/// materialized map from identity key to flushed instance.
pub struct Context {
    pub pending: Vec<EntityInstance>,
    pub entities: Vec<(Key, EntityInstance)>,
}

impl Context {
    pub fn new() -> (r: Self)
        ensures
            r.pending@.len() == 0,
            r.entities@.len() == 0,
    {
        Context { pending: Vec::new(), entities: Vec::new() }
    }

    /// Registers an instance as pending; the returned index is its handle
    /// until the next flush.
    pub fn add(&mut self, e: EntityInstance) -> (idx: usize)
        ensures
            final(self).pending@ == old(self).pending@.push(e),
            final(self).entities == old(self).entities,
            idx == old(self).pending@.len(),
    {
        let idx = self.pending.len();
        self.pending.push(e);
        idx
    }

    /// Drains the pending list for a flush batch.
    pub fn take_pending(&mut self) -> (r: Vec<EntityInstance>)
        ensures
            r@ == old(self).pending@,
            final(self).pending@.len() == 0,
            final(self).entities == old(self).entities,
    {
        let mut drained: Vec<EntityInstance> = Vec::new();
        core::mem::swap(&mut drained, &mut self.pending);
        drained
    }

    /// Files a flushed instance under its identity key, replacing any
    /// entry already stored under an equal key.
    pub fn materialize(&mut self, key: Key, e: EntityInstance)
        ensures
            final(self).pending == old(self).pending,
            ({
                let s = slot_of(old(self).entities@, key.type_tag@, key.parts@);
                &&& (s < old(self).entities@.len() ==> {
                    &&& final(self).entities@.len() == old(self).entities@.len()
                    &&& (forall|j: int|
                        0 <= j < old(self).entities@.len() && j != s
                            ==> final(self).entities@[j] == old(self).entities@[j])
                    &&& final(self).entities@[s] == (key, e)
                })
                &&& (s >= old(self).entities@.len() ==> final(self).entities@ == old(
                    self,
                ).entities@.push((key, e)))
            }),
    {
        proof {
            lemma_slot_of(self.entities@, key.type_tag@, key.parts@);
            assert(self.entities@.skip(0) =~= self.entities@);
        }
        let ghost entities0 = self.entities@;
        let mut i: usize = 0;
        while i < self.entities.len()
            invariant
                self.entities@ == entities0,
                entities0 == old(self).entities@,
                self.pending == old(self).pending,
                i <= entities0.len(),
                slot_of(entities0, key.type_tag@, key.parts@) == i + slot_of(
                    entities0.skip(i as int),
                    key.type_tag@,
                    key.parts@,
                ),
            decreases entities0.len() - i,
        {
            proof {
                assert(entities0.skip(i as int).skip(1) =~= entities0.skip(i as int + 1));
                assert(entities0.skip(i as int)[0] == entities0[i as int]);
            }
            if self.entities[i].0.key_eq(&key) {
                proof {
                    assert(kmatch(entities0[i as int].0, key.type_tag@, key.parts@));
                    assert(slot_of(entities0, key.type_tag@, key.parts@) == i as int);
                }
                self.entities[i] = (key, e);
                proof {
                    assert(self.entities@ =~= entities0.update(i as int, (key, e)));
                }
                return ;
            }
            i = i + 1;
        }
        proof {
            assert(entities0.skip(i as int) =~= Seq::<(Key, EntityInstance)>::empty());
        }
        self.entities.push((key, e));
    }

    /// Looks an instance up by identity key.
    pub fn lookup(&self, key: &Key) -> (r: Option<&EntityInstance>)
        ensures
            ({
                let s = slot_of(self.entities@, key.type_tag@, key.parts@);
                &&& (r is Some) == (s < self.entities@.len())
                &&& (match r {
                    Some(x) => *x == self.entities@[s].1,
                    None => true,
                })
            }),
    {
        proof {
            lemma_slot_of(self.entities@, key.type_tag@, key.parts@);
            assert(self.entities@.skip(0) =~= self.entities@);
        }
        let mut i: usize = 0;
        while i < self.entities.len()
            invariant
                i <= self.entities@.len(),
                slot_of(self.entities@, key.type_tag@, key.parts@) == i + slot_of(
                    self.entities@.skip(i as int),
                    key.type_tag@,
                    key.parts@,
                ),
            decreases self.entities@.len() - i,
        {
            proof {
                assert(self.entities@.skip(i as int).skip(1) =~= self.entities@.skip(i as int + 1));
                assert(self.entities@.skip(i as int)[0] == self.entities@[i as int]);
            }
            if self.entities[i].0.key_eq(key) {
                return Some(&self.entities[i].1);
            }
            i = i + 1;
        }
        proof {
            assert(self.entities@.skip(i as int) =~= Seq::<(Key, EntityInstance)>::empty());
        }
        None
    }

    /// Completes the flush of one instance: absorbs the returned row,
    /// derives the identity key, and files the instance under it.
    pub fn absorb(&mut self, e: EntityInstance, row: &Vec<Value>)
        requires
            e.wf(),
            row@.len() == e.fields@.len(),
            forall|i: int|
                0 <= i < row@.len() ==> (#[trigger] row@[i]).matches_type(e.meta.fields@[i].ty),
        ensures
            final(self).pending == old(self).pending,
            exists|key: Key, e2: EntityInstance|
                #[trigger] absorb_post(
                    old(self).entities@,
                    final(self).entities@,
                    e,
                    row@,
                    key,
                    e2,
                ),
    {
        let mut e2 = e;
        let ghost e_in = e2;
        e2.apply_row(row);
        proof {
            assert forall|k: int| 0 <= k < e2.meta.primary_key@.len() implies {
                let fi = field_idx(e2.meta.fields@, (#[trigger] e2.meta.primary_key@[k])@);
                &&& fi < e2.meta.fields@.len()
                &&& fi < e2.fields@.len()
                &&& !(e2.fields@[fi] is Unset)
            } by {
                lemma_field_idx(e2.meta.fields@, e2.meta.primary_key@[k]@);
                assert(e_in.meta.has_field(e_in.meta.primary_key@[k]@));
            }
            assert(e2.key_ready());
        }
        let key = match e2.id() {
            Some(k) => k,
            None => unreached(),
        };
        let ghost key_s = key;
        let ghost e2_s = e2;
        let ghost pre = self.entities@;
        self.materialize(key, e2);
        proof {
            assert(absorb_post(pre, self.entities@, e_in, row@, key_s, e2_s));
        }
    }
}

/// What a completed flush did to the materialized map: some key and
/// confirmed instance, derived from the input and the returned row, were
/// filed, replacing any entry under an equal key.
pub open spec fn absorb_post(
    pre: Seq<(Key, EntityInstance)>,
    post: Seq<(Key, EntityInstance)>,
    e: EntityInstance,
    row: Seq<Value>,
    key: Key,
    e2: EntityInstance,
) -> bool {
    &&& key.type_tag@ == e.meta.table_name@
    &&& e2.meta == e.meta
    &&& e2.fields@.len() == row.len()
    &&& (forall|i: int|
        0 <= i < row.len() ==> e2.fields@[i] == EntityField::Loaded(#[trigger] row[i]))
    &&& key.parts@ == e2.spec_key_parts()
    &&& ({
        let s = slot_of(pre, key.type_tag@, key.parts@);
        if s < pre.len() {
            &&& post.len() == pre.len()
            &&& (forall|j: int| 0 <= j < pre.len() && j != s ==> post[j] == pre[j])
            &&& post[s] == (key, e2)
        } else {
            post == pre.push((key, e2))
        }
    })
}

} // verus!
