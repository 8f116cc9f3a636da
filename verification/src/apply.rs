//! The semantic effect of a statement batch on the live schema, stated
//! per table name and column name: what the database holds after
//! executing the batch, and the proof that executing a generated forward
//! batch leaves the live schema realizing the declared one.

use vstd::prelude::*;
use crate::entity_meta::{field_idx, meta_find, EntityMeta, IdentityGeneration};
use crate::live_schema::{column_find, schema_col, table_find, LiveTable};
use crate::sql_gen::{
    lemma_no_drift_diff_empty, no_drift, spec_alter_ops, spec_column_type, spec_create_tables,
    spec_diff_err, spec_down_ops, spec_drop_columns, spec_drop_tables, spec_field_err,
    spec_field_ops, spec_fields_ops, spec_table_err, spec_table_ops, spec_up_ops, DdlOp,
};

verus! {

/// The observable content of one column: its dialect type string and
/// identity-generation mode.
pub open spec fn col_content(c: Option<crate::live_schema::LiveColumn>) -> Option<
    (Seq<char>, Option<IdentityGeneration>),
> {
    match c {
        Some(x) => Some((x.ty@, x.identity_generation)),
        None => None,
    }
}

/// What the declared metadata asks one column to hold; `None` for an
/// undeclared column name.
pub open spec fn canon_col(m: EntityMeta, c: Seq<char>) -> Option<
    (Seq<char>, Option<IdentityGeneration>),
> {
    if m.has_field(c) {
        let f = m.fields@[field_idx(m.fields@, c)];
        Some((spec_column_type(f.ty), f.identity_generation))
    } else {
        None
    }
}

/// Two live states with the same observable content.
pub open spec fn same_content(a: Seq<LiveTable>, b: Seq<LiveTable>) -> bool {
    &&& (forall|n: Seq<char>|
        (#[trigger] table_find(b, n) is Some) == (table_find(a, n) is Some))
    &&& (forall|n: Seq<char>, c: Seq<char>|
        col_content(#[trigger] schema_col(b, n, c)) == col_content(schema_col(a, n, c)))
}

/// How one executed statement relates the live content before it to the
/// content after it, as the reference dialect executes it.
pub open spec fn applied_op(pre: Seq<LiveTable>, op: DdlOp, post: Seq<LiveTable>) -> bool {
    match op {
        DdlOp::DropTable(t) => {
            &&& table_find(post, t@) is None
            &&& (forall|n: Seq<char>|
                n != t@ ==> (#[trigger] table_find(post, n) is Some) == (table_find(
                    pre,
                    n,
                ) is Some))
            &&& (forall|n: Seq<char>, c: Seq<char>|
                n != t@ ==> col_content(#[trigger] schema_col(post, n, c)) == col_content(
                    schema_col(pre, n, c),
                ))
        },
        DdlOp::CreateTable(m) => {
            &&& table_find(post, m.table_name@) is Some
            &&& (forall|c: Seq<char>|
                col_content(#[trigger] schema_col(post, m.table_name@, c)) == canon_col(m, c))
            &&& (forall|n: Seq<char>|
                n != m.table_name@ ==> (#[trigger] table_find(post, n) is Some) == (table_find(
                    pre,
                    n,
                ) is Some))
            &&& (forall|n: Seq<char>, c: Seq<char>|
                n != m.table_name@ ==> col_content(#[trigger] schema_col(post, n, c))
                    == col_content(schema_col(pre, n, c)))
        },
        DdlOp::AddColumn(t, f) => {
            &&& (table_find(post, t@) is Some) == (table_find(pre, t@) is Some)
            &&& col_content(schema_col(post, t@, f.name@)) == (if table_find(pre, t@) is Some {
                Some((spec_column_type(f.ty), f.identity_generation))
            } else {
                None
            })
            &&& (forall|c: Seq<char>|
                c != f.name@ ==> col_content(#[trigger] schema_col(post, t@, c)) == col_content(
                    schema_col(pre, t@, c),
                ))
            &&& (forall|n: Seq<char>|
                n != t@ ==> (#[trigger] table_find(post, n) is Some) == (table_find(
                    pre,
                    n,
                ) is Some))
            &&& (forall|n: Seq<char>, c: Seq<char>|
                n != t@ ==> col_content(#[trigger] schema_col(post, n, c)) == col_content(
                    schema_col(pre, n, c),
                ))
        },
        DdlOp::DropColumn(t, c0) => {
            &&& (table_find(post, t@) is Some) == (table_find(pre, t@) is Some)
            &&& col_content(schema_col(post, t@, c0@)) is None
            &&& (forall|c: Seq<char>|
                c != c0@ ==> col_content(#[trigger] schema_col(post, t@, c)) == col_content(
                    schema_col(pre, t@, c),
                ))
            &&& (forall|n: Seq<char>|
                n != t@ ==> (#[trigger] table_find(post, n) is Some) == (table_find(
                    pre,
                    n,
                ) is Some))
            &&& (forall|n: Seq<char>, c: Seq<char>|
                n != t@ ==> col_content(#[trigger] schema_col(post, n, c)) == col_content(
                    schema_col(pre, n, c),
                ))
        },
        DdlOp::AlterColumnType(t, f) => {
            &&& (table_find(post, t@) is Some) == (table_find(pre, t@) is Some)
            &&& col_content(schema_col(post, t@, f.name@)) == (match col_content(
                schema_col(pre, t@, f.name@),
            ) {
                Some(cc) => Some((spec_column_type(f.ty), cc.1)),
                None => None,
            })
            &&& (forall|c: Seq<char>|
                c != f.name@ ==> col_content(#[trigger] schema_col(post, t@, c)) == col_content(
                    schema_col(pre, t@, c),
                ))
            &&& (forall|n: Seq<char>|
                n != t@ ==> (#[trigger] table_find(post, n) is Some) == (table_find(
                    pre,
                    n,
                ) is Some))
            &&& (forall|n: Seq<char>, c: Seq<char>|
                n != t@ ==> col_content(#[trigger] schema_col(post, n, c)) == col_content(
                    schema_col(pre, n, c),
                ))
        },
        DdlOp::AddIdentity(t, f) => {
            &&& (table_find(post, t@) is Some) == (table_find(pre, t@) is Some)
            &&& col_content(schema_col(post, t@, f.name@)) == (match col_content(
                schema_col(pre, t@, f.name@),
            ) {
                Some(cc) => Some((cc.0, f.identity_generation)),
                None => None,
            })
            &&& (forall|c: Seq<char>|
                c != f.name@ ==> col_content(#[trigger] schema_col(post, t@, c)) == col_content(
                    schema_col(pre, t@, c),
                ))
            &&& (forall|n: Seq<char>|
                n != t@ ==> (#[trigger] table_find(post, n) is Some) == (table_find(
                    pre,
                    n,
                ) is Some))
            &&& (forall|n: Seq<char>, c: Seq<char>|
                n != t@ ==> col_content(#[trigger] schema_col(post, n, c)) == col_content(
                    schema_col(pre, n, c),
                ))
        },
    }
}

/// A batch executed statement by statement.
pub open spec fn applied_ops(pre: Seq<LiveTable>, ops: Seq<DdlOp>, post: Seq<LiveTable>) -> bool
    decreases ops.len(),
{
    if ops.len() == 0 {
        same_content(pre, post)
    } else {
        exists|mid: Seq<LiveTable>|
            #[trigger] applied_op(pre, ops[0], mid) && applied_ops(mid, ops.skip(1), post)
    }
}

/// What one statement makes of one (table name, column name) slot: the
/// presence of the table, and the column's content.
pub open spec fn net_state(
    p: (bool, Option<(Seq<char>, Option<IdentityGeneration>)>),
    op: DdlOp,
    n: Seq<char>,
    c: Seq<char>,
) -> (bool, Option<(Seq<char>, Option<IdentityGeneration>)>) {
    match op {
        DdlOp::DropTable(t) => if t@ == n {
            (false, None)
        } else {
            p
        },
        DdlOp::CreateTable(m) => if m.table_name@ == n {
            (true, canon_col(m, c))
        } else {
            p
        },
        DdlOp::AddColumn(t, f) => if t@ == n && f.name@ == c {
            (
                p.0,
                if p.0 {
                    Some((spec_column_type(f.ty), f.identity_generation))
                } else {
                    None
                },
            )
        } else {
            p
        },
        DdlOp::DropColumn(t, c0) => if t@ == n && c0@ == c {
            (p.0, None)
        } else {
            p
        },
        DdlOp::AlterColumnType(t, f) => if t@ == n && f.name@ == c {
            (
                p.0,
                match p.1 {
                    Some(cc) => Some((spec_column_type(f.ty), cc.1)),
                    None => None,
                },
            )
        } else {
            p
        },
        DdlOp::AddIdentity(t, f) => if t@ == n && f.name@ == c {
            (
                p.0,
                match p.1 {
                    Some(cc) => Some((cc.0, f.identity_generation)),
                    None => None,
                },
            )
        } else {
            p
        },
    }
}

pub open spec fn net_states(
    p: (bool, Option<(Seq<char>, Option<IdentityGeneration>)>),
    ops: Seq<DdlOp>,
    n: Seq<char>,
    c: Seq<char>,
) -> (bool, Option<(Seq<char>, Option<IdentityGeneration>)>)
    decreases ops.len(),
{
    if ops.len() == 0 {
        p
    } else {
        net_states(net_state(p, ops[0], n, c), ops.skip(1), n, c)
    }
}

/// The slot read off a live state.
pub open spec fn slot_of_state(pre: Seq<LiveTable>, n: Seq<char>, c: Seq<char>) -> (
    bool,
    Option<(Seq<char>, Option<IdentityGeneration>)>,
) {
    (table_find(pre, n) is Some, col_content(schema_col(pre, n, c)))
}

/// Executing a batch takes every slot to its net state.
pub proof fn lemma_applied_net(
    pre: Seq<LiveTable>,
    ops: Seq<DdlOp>,
    post: Seq<LiveTable>,
    n: Seq<char>,
    c: Seq<char>,
)
    requires
        applied_ops(pre, ops, post),
    ensures
        slot_of_state(post, n, c) == net_states(slot_of_state(pre, n, c), ops, n, c),
    decreases ops.len(),
{
    if ops.len() == 0 {
    } else {
        let mid = choose|mid: Seq<LiveTable>|
            #[trigger] applied_op(pre, ops[0], mid) && applied_ops(mid, ops.skip(1), post);
        lemma_applied_net(mid, ops.skip(1), post, n, c);
        assert(slot_of_state(mid, n, c) == net_state(slot_of_state(pre, n, c), ops[0], n, c));
    }
}

/// Folding a concatenation folds the parts in order.
pub proof fn lemma_net_concat(
    p: (bool, Option<(Seq<char>, Option<IdentityGeneration>)>),
    a: Seq<DdlOp>,
    b: Seq<DdlOp>,
    n: Seq<char>,
    c: Seq<char>,
)
    ensures
        net_states(p, a + b, n, c) == net_states(net_states(p, a, n, c), b, n, c),
    decreases a.len(),
{
    if a.len() == 0 {
        assert(a + b =~= b);
    } else {
        assert((a + b)[0] == a[0]);
        assert((a + b).skip(1) =~= a.skip(1) + b);
        lemma_net_concat(net_state(p, a[0], n, c), a.skip(1), b, n, c);
    }
}

/// A well-formed declared schema — strictly sorted tables, each with
/// strictly sorted fields — has pairwise distinct table names and field
/// names, which is what the execution laws ask of it.
pub proof fn lemma_schema_wf_distinct(schema: Seq<EntityMeta>)
    requires
        crate::entity_meta::schema_wf(schema),
    ensures
        forall|x: int, y: int|
            0 <= x < y < schema.len() ==> (#[trigger] schema[x]).table_name@ != (
            #[trigger] schema[y]).table_name@,
        forall|i: int, x: int, y: int|
            #![trigger schema[i].fields@[x], schema[i].fields@[y]]
            0 <= i < schema.len() && 0 <= x < y < schema[i].fields@.len()
                ==> schema[i].fields@[x].name@ != schema[i].fields@[y].name@,
{
    assert forall|x: int, y: int|
        0 <= x < y < schema.len() implies (#[trigger] schema[x]).table_name@ != (
    #[trigger] schema[y]).table_name@ by {
        if schema[x].table_name@ == schema[y].table_name@ {
            crate::text::lemma_lex_lt_irrefl(schema[x].table_name@);
        }
    }
    assert forall|i: int, x: int, y: int|
        #![trigger schema[i].fields@[x], schema[i].fields@[y]]
        0 <= i < schema.len() && 0 <= x < y < schema[i].fields@.len() implies schema[i].fields@[
    x].name@ != schema[i].fields@[y].name@ by {
        assert(schema[i].wf());
        if schema[i].fields@[x].name@ == schema[i].fields@[y].name@ {
            crate::text::lemma_lex_lt_irrefl(schema[i].fields@[x].name@);
        }
    }
}

/// A lookup among declared entities is served exactly when one has the
/// name.
proof fn lemma_meta_find_exists(s: Seq<EntityMeta>, name: Seq<char>)
    ensures
        (meta_find(s, name) is Some) == (exists|k: int|
            0 <= k < s.len() && (#[trigger] s[k]).table_name@ == name),
    decreases s.len(),
{
    if s.len() == 0 {
    } else if s[0].table_name@ == name {
    } else {
        lemma_meta_find_exists(s.skip(1), name);
        if exists|k: int| 0 <= k < s.len() && (#[trigger] s[k]).table_name@ == name {
            let k = choose|k: int| 0 <= k < s.len() && (#[trigger] s[k]).table_name@ == name;
            assert(s.skip(1)[k - 1] == s[k]);
        }
        if exists|k: int| 0 <= k < s.skip(1).len() && (#[trigger] s.skip(1)[k]).table_name@
            == name {
            let k = choose|k: int|
                0 <= k < s.skip(1).len() && (#[trigger] s.skip(1)[k]).table_name@ == name;
            assert(s[k + 1] == s.skip(1)[k]);
        }
    }
}

/// With distinct table names, the entity at any index serves the lookup
/// of its name.
proof fn lemma_meta_find_unique(s: Seq<EntityMeta>, i: int)
    requires
        forall|p: int, q: int|
            0 <= p < q < s.len() ==> (#[trigger] s[p]).table_name@ != (
            #[trigger] s[q]).table_name@,
        0 <= i < s.len(),
    ensures
        meta_find(s, s[i].table_name@) == Some(s[i]),
    decreases i,
{
    if i == 0 {
    } else {
        assert(s[0].table_name@ != s[i].table_name@);
        assert(s.skip(1)[i - 1] == s[i]);
        assert(forall|p: int, q: int|
            0 <= p < q < s.skip(1).len() ==> (#[trigger] s.skip(1)[p]).table_name@ != (
            #[trigger] s.skip(1)[q]).table_name@);
        lemma_meta_find_unique(s.skip(1), i - 1);
    }
}

/// With distinct field names, the field at any index is the one its name
/// finds.
proof fn lemma_field_idx_unique(fields: Seq<crate::entity_meta::FieldMeta>, j: int)
    requires
        forall|p: int, q: int|
            0 <= p < q < fields.len() ==> (#[trigger] fields[p]).name@ != (
            #[trigger] fields[q]).name@,
        0 <= j < fields.len(),
    ensures
        field_idx(fields, fields[j].name@) == j,
    decreases j,
{
    if j == 0 {
    } else {
        assert(fields[0].name@ != fields[j].name@);
        assert(fields.skip(1)[j - 1] == fields[j]);
        assert(forall|p: int, q: int|
            0 <= p < q < fields.skip(1).len() ==> (#[trigger] fields.skip(1)[p]).name@ != (
            #[trigger] fields.skip(1)[q]).name@);
        lemma_field_idx_unique(fields.skip(1), j - 1);
    }
}

/// Whether a statement only touches the one table.
pub open spec fn op_on_table(op: DdlOp, t: Seq<char>) -> bool {
    match op {
        DdlOp::AddColumn(s, _) => s@ == t,
        DdlOp::DropColumn(s, _) => s@ == t,
        DdlOp::AlterColumnType(s, _) => s@ == t,
        DdlOp::AddIdentity(s, _) => s@ == t,
        _ => false,
    }
}

/// Statements on one table leave every other table's slots alone.
proof fn lemma_net_other_table(
    p: (bool, Option<(Seq<char>, Option<IdentityGeneration>)>),
    ops: Seq<DdlOp>,
    t: Seq<char>,
    n: Seq<char>,
    c: Seq<char>,
)
    requires
        forall|k: int| 0 <= k < ops.len() ==> op_on_table(#[trigger] ops[k], t),
        t != n,
    ensures
        net_states(p, ops, n, c) == p,
    decreases ops.len(),
{
    if ops.len() == 0 {
    } else {
        assert(op_on_table(ops[0], t));
        assert(net_state(p, ops[0], n, c) == p);
        assert(forall|k: int|
            0 <= k < ops.skip(1).len() ==> op_on_table(#[trigger] ops.skip(1)[k], t));
        lemma_net_other_table(p, ops.skip(1), t, n, c);
    }
}

/// Every statement of one table's alignment chunk is on that table.
proof fn lemma_table_ops_on_table(m: EntityMeta, lt: LiveTable)
    ensures
        forall|k: int|
            0 <= k < spec_table_ops(m, lt).len() ==> op_on_table(
                #[trigger] spec_table_ops(m, lt)[k],
                m.table_name@,
            ),
{
    lemma_drop_columns_on_table(m, lt.columns@);
    lemma_fields_ops_on_table(m.table_name, m.fields@, lt.columns@, m.table_name@);
}

proof fn lemma_drop_columns_on_table(m: EntityMeta, cols: Seq<crate::live_schema::LiveColumn>)
    ensures
        forall|k: int|
            0 <= k < spec_drop_columns(m, cols).len() ==> op_on_table(
                #[trigger] spec_drop_columns(m, cols)[k],
                m.table_name@,
            ),
    decreases cols.len(),
{
    if cols.len() == 0 {
    } else {
        lemma_drop_columns_on_table(m, cols.skip(1));
        let ops = spec_drop_columns(m, cols);
        let rest = spec_drop_columns(m, cols.skip(1));
        if m.has_field(cols[0].name@) {
            assert(ops =~= rest);
        } else {
            assert(ops =~= seq![DdlOp::DropColumn(m.table_name, cols[0].name)] + rest);
            assert forall|k: int|
                0 <= k < ops.len() implies op_on_table(#[trigger] ops[k], m.table_name@) by {
                if k == 0 {
                    assert(ops[0] == DdlOp::DropColumn(m.table_name, cols[0].name));
                } else {
                    assert(ops[k] == rest[k - 1]);
                }
            }
        }
    }
}

proof fn lemma_fields_ops_on_table(
    table: String,
    fields: Seq<crate::entity_meta::FieldMeta>,
    cols: Seq<crate::live_schema::LiveColumn>,
    t: Seq<char>,
)
    requires
        table@ == t,
    ensures
        forall|k: int|
            0 <= k < spec_fields_ops(table, fields, cols).len() ==> op_on_table(
                #[trigger] spec_fields_ops(table, fields, cols)[k],
                t,
            ),
    decreases fields.len(),
{
    if fields.len() == 0 {
    } else {
        lemma_fields_ops_on_table(table, fields.skip(1), cols, t);
        let ops = spec_fields_ops(table, fields, cols);
        let head = spec_field_ops(table, fields[0], cols);
        let rest = spec_fields_ops(table, fields.skip(1), cols);
        assert(ops =~= head + rest);
        assert forall|k: int| 0 <= k < head.len() implies op_on_table(
            #[trigger] head[k],
            t,
        ) by {
            match column_find(cols, fields[0].name@) {
                None => {
                    assert(head =~= seq![DdlOp::AddColumn(table, fields[0])]);
                    assert(head[0] == DdlOp::AddColumn(table, fields[0]));
                },
                Some(col) => {
                    let a = col.ty@ != spec_column_type(fields[0].ty);
                    let b = col.identity_generation != fields[0].identity_generation
                        && fields[0].identity_generation is Some;
                    if a && b {
                        assert(head =~= seq![DdlOp::AlterColumnType(table, fields[0])] + seq![
                            DdlOp::AddIdentity(table, fields[0]),
                        ]);
                        assert(head[0] == DdlOp::AlterColumnType(table, fields[0]));
                        assert(head[1] == DdlOp::AddIdentity(table, fields[0]));
                    } else if a {
                        assert(head =~= seq![DdlOp::AlterColumnType(table, fields[0])]);
                        assert(head[0] == DdlOp::AlterColumnType(table, fields[0]));
                    } else if b {
                        assert(head =~= seq![DdlOp::AddIdentity(table, fields[0])]);
                        assert(head[0] == DdlOp::AddIdentity(table, fields[0]));
                    } else {
                        assert(head =~= Seq::<DdlOp>::empty());
                    }
                },
            }
        }
        assert forall|k: int| 0 <= k < ops.len() implies op_on_table(#[trigger] ops[k], t) by {
            if k < head.len() {
                assert(ops[k] == head[k]);
            } else {
                assert(ops[k] == rest[k - head.len()]);
            }
        }
    }
}

/// Dropping live tables empties exactly the undeclared names present in
/// the listing, and leaves every other slot alone.
proof fn lemma_net_drop_tables(
    p: (bool, Option<(Seq<char>, Option<IdentityGeneration>)>),
    schema: Seq<EntityMeta>,
    rem: Seq<LiveTable>,
    n: Seq<char>,
    c: Seq<char>,
)
    ensures
        net_states(p, spec_drop_tables(schema, rem), n, c) == (if meta_find(schema, n) is None
            && table_find(rem, n) is Some {
            (false, None::<(Seq<char>, Option<IdentityGeneration>)>)
        } else {
            p
        }),
    decreases rem.len(),
{
    if rem.len() == 0 {
    } else {
        let ops = spec_drop_tables(schema, rem);
        let rest = spec_drop_tables(schema, rem.skip(1));
        if meta_find(schema, rem[0].name@) is None {
            assert(ops =~= seq![DdlOp::DropTable(rem[0].name)] + rest);
            assert(ops[0] == DdlOp::DropTable(rem[0].name));
            assert(ops.skip(1) =~= rest);
            let p1 = net_state(p, ops[0], n, c);
            lemma_net_drop_tables(p1, schema, rem.skip(1), n, c);
        } else {
            assert(ops =~= rest);
            lemma_net_drop_tables(p, schema, rem.skip(1), n, c);
        }
    }
}

/// Creating the missing declared tables makes each of them canonical,
/// and leaves every other slot alone.
proof fn lemma_net_create_tables(
    p: (bool, Option<(Seq<char>, Option<IdentityGeneration>)>),
    rem: Seq<EntityMeta>,
    live: Seq<LiveTable>,
    n: Seq<char>,
    c: Seq<char>,
)
    requires
        forall|x: int, y: int|
            0 <= x < y < rem.len() ==> (#[trigger] rem[x]).table_name@ != (
            #[trigger] rem[y]).table_name@,
    ensures
        net_states(p, spec_create_tables(rem, live), n, c) == (match meta_find(rem, n) {
            Some(m) => if table_find(live, n) is None {
                (true, canon_col(m, c))
            } else {
                p
            },
            None => p,
        }),
    decreases rem.len(),
{
    if rem.len() == 0 {
    } else {
        let ops = spec_create_tables(rem, live);
        let rest = spec_create_tables(rem.skip(1), live);
        assert(forall|x: int, y: int|
            0 <= x < y < rem.skip(1).len() ==> (#[trigger] rem.skip(1)[x]).table_name@ != (
            #[trigger] rem.skip(1)[y]).table_name@);
        if rem[0].table_name@ == n {
            lemma_meta_find_exists(rem.skip(1), n);
            assert(forall|k: int|
                0 <= k < rem.skip(1).len() ==> (#[trigger] rem.skip(1)[k]).table_name@ != n);
            assert(meta_find(rem.skip(1), n) is None);
            if table_find(live, n) is None {
                assert(ops =~= seq![DdlOp::CreateTable(rem[0])] + rest);
                assert(ops[0] == DdlOp::CreateTable(rem[0]));
                assert(ops.skip(1) =~= rest);
                let p1 = net_state(p, ops[0], n, c);
                assert(p1 == (true, canon_col(rem[0], c)));
                lemma_net_create_tables(p1, rem.skip(1), live, n, c);
            } else {
                assert(ops =~= rest);
                lemma_net_create_tables(p, rem.skip(1), live, n, c);
            }
        } else {
            if table_find(live, rem[0].table_name@) is None {
                assert(ops =~= seq![DdlOp::CreateTable(rem[0])] + rest);
                assert(ops.skip(1) =~= rest);
                assert(net_state(p, ops[0], n, c) == p);
                lemma_net_create_tables(p, rem.skip(1), live, n, c);
            } else {
                assert(ops =~= rest);
                lemma_net_create_tables(p, rem.skip(1), live, n, c);
            }
        }
    }
}

/// Dropping the undeclared live columns of one table empties exactly
/// those column slots.
proof fn lemma_net_drop_columns(
    p: (bool, Option<(Seq<char>, Option<IdentityGeneration>)>),
    m: EntityMeta,
    cols: Seq<crate::live_schema::LiveColumn>,
    c: Seq<char>,
)
    ensures
        net_states(p, spec_drop_columns(m, cols), m.table_name@, c) == (if !m.has_field(c)
            && column_find(cols, c) is Some {
            (p.0, None::<(Seq<char>, Option<IdentityGeneration>)>)
        } else {
            p
        }),
    decreases cols.len(),
{
    if cols.len() == 0 {
    } else {
        let ops = spec_drop_columns(m, cols);
        let rest = spec_drop_columns(m, cols.skip(1));
        if m.has_field(cols[0].name@) {
            assert(ops =~= rest);
            lemma_net_drop_columns(p, m, cols.skip(1), c);
        } else {
            assert(ops =~= seq![DdlOp::DropColumn(m.table_name, cols[0].name)] + rest);
            assert(ops[0] == DdlOp::DropColumn(m.table_name, cols[0].name));
            assert(ops.skip(1) =~= rest);
            let p1 = net_state(p, ops[0], m.table_name@, c);
            lemma_net_drop_columns(p1, m, cols.skip(1), c);
        }
    }
}

proof fn lemma_net_singleton(
    p: (bool, Option<(Seq<char>, Option<IdentityGeneration>)>),
    op: DdlOp,
    n: Seq<char>,
    c: Seq<char>,
)
    ensures
        net_states(p, seq![op], n, c) == net_state(p, op, n, c),
{
    assert(seq![op].skip(1) =~= Seq::<DdlOp>::empty());
    assert(seq![op][0] == op);
    assert(net_states(net_state(p, op, n, c), Seq::<DdlOp>::empty(), n, c) == net_state(
        p,
        op,
        n,
        c,
    ));
    assert(net_states(p, seq![op], n, c) == net_states(
        net_state(p, op, n, c),
        seq![op].skip(1),
        n,
        c,
    ));
}

/// One field's alignment statements, evaluated step by step.
proof fn lemma_net_field_ops_eval(
    p: (bool, Option<(Seq<char>, Option<IdentityGeneration>)>),
    table: String,
    f: crate::entity_meta::FieldMeta,
    cols: Seq<crate::live_schema::LiveColumn>,
    c: Seq<char>,
)
    ensures
        net_states(p, spec_field_ops(table, f, cols), table@, c) == (match column_find(
            cols,
            f.name@,
        ) {
            None => net_state(p, DdlOp::AddColumn(table, f), table@, c),
            Some(col) => {
                let p1 = if col.ty@ != spec_column_type(f.ty) {
                    net_state(p, DdlOp::AlterColumnType(table, f), table@, c)
                } else {
                    p
                };
                if col.identity_generation != f.identity_generation
                    && f.identity_generation is Some {
                    net_state(p1, DdlOp::AddIdentity(table, f), table@, c)
                } else {
                    p1
                }
            },
        }),
{
    let ops = spec_field_ops(table, f, cols);
    match column_find(cols, f.name@) {
        None => {
            assert(ops =~= seq![DdlOp::AddColumn(table, f)]);
            lemma_net_singleton(p, DdlOp::AddColumn(table, f), table@, c);
        },
        Some(col) => {
            let ty_differs = col.ty@ != spec_column_type(f.ty);
            let id_differs = col.identity_generation != f.identity_generation
                && f.identity_generation is Some;
            if ty_differs && id_differs {
                assert(ops =~= seq![DdlOp::AlterColumnType(table, f)] + seq![
                    DdlOp::AddIdentity(table, f),
                ]);
                lemma_net_concat(
                    p,
                    seq![DdlOp::AlterColumnType(table, f)],
                    seq![DdlOp::AddIdentity(table, f)],
                    table@,
                    c,
                );
                lemma_net_singleton(p, DdlOp::AlterColumnType(table, f), table@, c);
                lemma_net_singleton(
                    net_state(p, DdlOp::AlterColumnType(table, f), table@, c),
                    DdlOp::AddIdentity(table, f),
                    table@,
                    c,
                );
            } else if ty_differs {
                assert(ops =~= seq![DdlOp::AlterColumnType(table, f)]);
                lemma_net_singleton(p, DdlOp::AlterColumnType(table, f), table@, c);
            } else if id_differs {
                assert(ops =~= seq![DdlOp::AddIdentity(table, f)]);
                lemma_net_singleton(p, DdlOp::AddIdentity(table, f), table@, c);
            } else {
                assert(ops =~= Seq::<DdlOp>::empty());
            }
        },
    }
}

/// Field statements never touch other column slots of the table.
proof fn lemma_net_fields_untouched(
    p: (bool, Option<(Seq<char>, Option<IdentityGeneration>)>),
    table: String,
    fields: Seq<crate::entity_meta::FieldMeta>,
    cols: Seq<crate::live_schema::LiveColumn>,
    c: Seq<char>,
)
    requires
        forall|j: int| 0 <= j < fields.len() ==> (#[trigger] fields[j]).name@ != c,
    ensures
        net_states(p, spec_fields_ops(table, fields, cols), table@, c) == p,
    decreases fields.len(),
{
    if fields.len() == 0 {
    } else {
        let head = spec_field_ops(table, fields[0], cols);
        let rest = spec_fields_ops(table, fields.skip(1), cols);
        assert(spec_fields_ops(table, fields, cols) =~= head + rest);
        lemma_net_concat(p, head, rest, table@, c);
        lemma_net_field_ops_eval(p, table, fields[0], cols, c);
        assert(net_states(p, head, table@, c) == p);
        assert(forall|j: int|
            0 <= j < fields.skip(1).len() ==> (#[trigger] fields.skip(1)[j]).name@ != c);
        lemma_net_fields_untouched(p, table, fields.skip(1), cols, c);
    }
}

/// Aligning the declared fields makes every declared column slot
/// canonical and leaves the rest of the table alone.
proof fn lemma_net_fields(
    p: (bool, Option<(Seq<char>, Option<IdentityGeneration>)>),
    table: String,
    fields: Seq<crate::entity_meta::FieldMeta>,
    cols: Seq<crate::live_schema::LiveColumn>,
    c: Seq<char>,
)
    requires
        p.0 == true,
        forall|x: int, y: int|
            0 <= x < y < fields.len() ==> (#[trigger] fields[x]).name@ != (
            #[trigger] fields[y]).name@,
        forall|j: int| 0 <= j < fields.len() ==> !spec_field_err(#[trigger] fields[j], cols),
        (field_idx(fields, c) < fields.len() && column_find(cols, c) is Some) ==> p.1
            == col_content(column_find(cols, c)),
    ensures
        net_states(p, spec_fields_ops(table, fields, cols), table@, c) == (if field_idx(fields, c)
            < fields.len() {
            (
                true,
                Some(
                    (
                        spec_column_type(fields[field_idx(fields, c)].ty),
                        fields[field_idx(fields, c)].identity_generation,
                    ),
                ),
            )
        } else {
            p
        }),
    decreases fields.len(),
{
    crate::entity_meta::lemma_field_idx(fields, c);
    if fields.len() == 0 {
    } else {
        let head = spec_field_ops(table, fields[0], cols);
        let rest = spec_fields_ops(table, fields.skip(1), cols);
        assert(spec_fields_ops(table, fields, cols) =~= head + rest);
        lemma_net_concat(p, head, rest, table@, c);
        lemma_net_field_ops_eval(p, table, fields[0], cols, c);
        if fields[0].name@ == c {
            assert(field_idx(fields, c) == 0);
            let f = fields[0];
            let target = (true, Some((spec_column_type(f.ty), f.identity_generation)));
            assert(net_states(p, head, table@, c) == target) by {
                match column_find(cols, f.name@) {
                    None => {},
                    Some(col) => {
                        assert(!spec_field_err(fields[0], cols));
                        assert(p.1 == Some((col.ty@, col.identity_generation)));
                    },
                }
            }
            assert(forall|j: int|
                0 <= j < fields.skip(1).len() ==> (#[trigger] fields.skip(1)[j]).name@ != c);
            lemma_net_fields_untouched(target, table, fields.skip(1), cols, c);
        } else {
            assert(net_states(p, head, table@, c) == p);
            assert(forall|x: int, y: int|
                0 <= x < y < fields.skip(1).len() ==> (#[trigger] fields.skip(1)[x]).name@ != (
                #[trigger] fields.skip(1)[y]).name@);
            assert(forall|j: int|
                0 <= j < fields.skip(1).len() ==> !spec_field_err(
                    #[trigger] fields.skip(1)[j],
                    cols,
                ));
            crate::entity_meta::lemma_field_idx(fields.skip(1), c);
            lemma_net_fields(p, table, fields.skip(1), cols, c);
            if field_idx(fields, c) < fields.len() {
                assert(field_idx(fields, c) == 1 + field_idx(fields.skip(1), c));
                assert(fields.skip(1)[field_idx(fields.skip(1), c)] == fields[field_idx(
                    fields,
                    c,
                )]);
            }
        }
    }
}

/// Aligning the tables present on both sides makes each declared slot
/// canonical, starting from its live content, and touches nothing else.
proof fn lemma_net_alters(rem: Seq<EntityMeta>, live: Seq<LiveTable>, n: Seq<char>, c: Seq<char>)
    requires
        forall|x: int, y: int|
            0 <= x < y < rem.len() ==> (#[trigger] rem[x]).table_name@ != (
            #[trigger] rem[y]).table_name@,
        forall|i: int, x: int, y: int|
            #![trigger rem[i].fields@[x], rem[i].fields@[y]]
            0 <= i < rem.len() && 0 <= x < y < rem[i].fields@.len() ==> rem[i].fields@[x].name@
                != rem[i].fields@[y].name@,
        forall|i: int|
            0 <= i < rem.len() ==> !(match table_find(live, (#[trigger] rem[i]).table_name@) {
                Some(lt) => spec_table_err(rem[i], lt),
                None => false,
            }),
    ensures
        match meta_find(rem, n) {
            None => forall|p: (bool, Option<(Seq<char>, Option<IdentityGeneration>)>)|
                #[trigger] net_states(p, spec_alter_ops(rem, live), n, c) == p,
            Some(m) => match table_find(live, n) {
                None => forall|p: (bool, Option<(Seq<char>, Option<IdentityGeneration>)>)|
                    #[trigger] net_states(p, spec_alter_ops(rem, live), n, c) == p,
                Some(lt) => net_states(
                    (true, col_content(column_find(lt.columns@, c))),
                    spec_alter_ops(rem, live),
                    n,
                    c,
                ) == (true, canon_col(m, c)),
            },
        },
    decreases rem.len(),
{
    if rem.len() == 0 {
    } else {
        let m0 = rem[0];
        let ops = spec_alter_ops(rem, live);
        let rest = spec_alter_ops(rem.skip(1), live);
        assert(forall|x: int, y: int|
            0 <= x < y < rem.skip(1).len() ==> (#[trigger] rem.skip(1)[x]).table_name@ != (
            #[trigger] rem.skip(1)[y]).table_name@);
        assert forall|i: int, x: int, y: int|
            #![trigger rem.skip(1)[i].fields@[x], rem.skip(1)[i].fields@[y]]
            0 <= i < rem.skip(1).len() && 0 <= x < y < rem.skip(1)[i].fields@.len() implies rem.skip(
            1,
        )[i].fields@[x].name@ != rem.skip(1)[i].fields@[y].name@ by {
            assert(rem.skip(1)[i] == rem[i + 1]);
        }
        assert forall|i: int|
            0 <= i < rem.skip(1).len() implies !(match table_find(
            live,
            (#[trigger] rem.skip(1)[i]).table_name@,
        ) {
            Some(lt) => spec_table_err(rem.skip(1)[i], lt),
            None => false,
        }) by {
            assert(rem.skip(1)[i] == rem[i + 1]);
        }
        lemma_net_alters(rem.skip(1), live, n, c);
        if m0.table_name@ != n {
            match table_find(live, m0.table_name@) {
                Some(lt0) => {
                    assert(ops =~= spec_table_ops(m0, lt0) + rest);
                    lemma_table_ops_on_table(m0, lt0);
                    assert forall|p: (bool, Option<(Seq<char>, Option<IdentityGeneration>)>)|
                        #[trigger] net_states(p, spec_table_ops(m0, lt0), n, c) == p by {
                        lemma_net_other_table(p, spec_table_ops(m0, lt0), m0.table_name@, n, c);
                    }
                    match meta_find(rem, n) {
                        None => {
                            assert forall|p: (
                                bool,
                                Option<(Seq<char>, Option<IdentityGeneration>)>,
                            )| #[trigger] net_states(p, ops, n, c) == p by {
                                lemma_net_concat(p, spec_table_ops(m0, lt0), rest, n, c);
                            }
                        },
                        Some(m) => {
                            match table_find(live, n) {
                                None => {
                                    assert forall|p: (
                                        bool,
                                        Option<(Seq<char>, Option<IdentityGeneration>)>,
                                    )| #[trigger] net_states(p, ops, n, c) == p by {
                                        lemma_net_concat(p, spec_table_ops(m0, lt0), rest, n, c);
                                    }
                                },
                                Some(lt) => {
                                    let pstar = (true, col_content(column_find(lt.columns@, c)));
                                    lemma_net_concat(pstar, spec_table_ops(m0, lt0), rest, n, c);
                                },
                            }
                        },
                    }
                },
                None => {
                    assert(ops =~= rest);
                },
            }
        } else {
            assert(meta_find(rem, n) == Some(m0));
            lemma_meta_find_exists(rem.skip(1), n);
            assert(forall|k: int|
                0 <= k < rem.skip(1).len() ==> (#[trigger] rem.skip(1)[k]).table_name@ != n);
            assert(meta_find(rem.skip(1), n) is None);
            match table_find(live, n) {
                None => {
                    assert(ops =~= rest);
                },
                Some(lt) => {
                    let dc = spec_drop_columns(m0, lt.columns@);
                    let fo = spec_fields_ops(m0.table_name, m0.fields@, lt.columns@);
                    assert(spec_table_ops(m0, lt) =~= dc + fo);
                    assert(ops =~= (dc + fo) + rest);
                    let pstar = (true, col_content(column_find(lt.columns@, c)));
                    lemma_net_concat(pstar, dc + fo, rest, n, c);
                    lemma_net_concat(pstar, dc, fo, n, c);
                    lemma_net_drop_columns(pstar, m0, lt.columns@, c);
                    let p1 = net_states(pstar, dc, n, c);
                    crate::entity_meta::lemma_field_idx(m0.fields@, c);
                    assert(forall|j: int|
                        0 <= j < m0.fields@.len() ==> !spec_field_err(
                            #[trigger] m0.fields@[j],
                            lt.columns@,
                        )) by {
                        assert(!spec_table_err(m0, lt));
                    }
                    assert forall|x: int, y: int|
                        0 <= x < y < m0.fields@.len() implies (#[trigger] m0.fields@[x]).name@
                        != (#[trigger] m0.fields@[y]).name@ by {
                        assert(rem[0].fields@[x].name@ != rem[0].fields@[y].name@);
                    }
                    lemma_net_fields(p1, m0.table_name, m0.fields@, lt.columns@, c);
                    assert(net_states(pstar, dc + fo, n, c) == (true, canon_col(m0, c)));
                },
            }
        }
    }
}

/// Executing the generated forward batch converges the database: the
/// live schema afterwards realizes the declared one. With
/// `lemma_no_drift_diff_empty`, diffing immediately after applying a
/// generated forward batch yields an empty batch.
pub proof fn lemma_apply_up_no_drift(
    schema: Seq<EntityMeta>,
    live: Seq<LiveTable>,
    post: Seq<LiveTable>,
)
    requires
        forall|x: int, y: int|
            0 <= x < y < schema.len() ==> (#[trigger] schema[x]).table_name@ != (
            #[trigger] schema[y]).table_name@,
        forall|i: int, x: int, y: int|
            #![trigger schema[i].fields@[x], schema[i].fields@[y]]
            0 <= i < schema.len() && 0 <= x < y < schema[i].fields@.len()
                ==> schema[i].fields@[x].name@ != schema[i].fields@[y].name@,
        !spec_diff_err(schema, live),
        applied_ops(live, spec_up_ops(schema, live), post),
    ensures
        no_drift(schema, post),
{
    let ups = spec_up_ops(schema, live);
    let drops = spec_drop_tables(schema, live);
    let creates = spec_create_tables(schema, live);
    let alters = spec_alter_ops(schema, live);
    assert(ups == (drops + creates) + alters);
    assert forall|i: int|
        0 <= i < schema.len() implies !(match table_find(
        live,
        (#[trigger] schema[i]).table_name@,
    ) {
        Some(lt) => spec_table_err(schema[i], lt),
        None => false,
    }) by {}

    // No undeclared table survives.
    assert forall|i: int|
        0 <= i < post.len() implies meta_find(schema, (#[trigger] post[i]).name@) is Some by {
        let n = post[i].name@;
        if meta_find(schema, n) is None {
            lemma_applied_net(live, ups, post, n, n);
            let p0 = slot_of_state(live, n, n);
            lemma_net_concat(p0, drops + creates, alters, n, n);
            lemma_net_concat(p0, drops, creates, n, n);
            lemma_net_drop_tables(p0, schema, live, n, n);
            let p1 = net_states(p0, drops, n, n);
            assert(p1.0 == false);
            lemma_net_create_tables(p1, schema, live, n, n);
            lemma_net_alters(schema, live, n, n);
            assert(slot_of_state(post, n, n).0 == false);
            crate::live_schema::lemma_table_find_exists(post, n);
            assert(false);
        }
    }

    // Every declared table is realized exactly.
    assert forall|i: int|
        0 <= i < schema.len() implies (match table_find(
        post,
        (#[trigger] schema[i]).table_name@,
    ) {
        Some(lt2) => crate::sql_gen::table_matches(schema[i], lt2),
        None => false,
    }) by {
        let m = schema[i];
        let n = m.table_name@;
        lemma_meta_find_unique(schema, i);
        assert forall|c: Seq<char>| #[trigger]
            slot_of_state(post, n, c) == (true, canon_col(m, c)) by {
            lemma_applied_net(live, ups, post, n, c);
            let p0 = slot_of_state(live, n, c);
            lemma_net_concat(p0, drops + creates, alters, n, c);
            lemma_net_concat(p0, drops, creates, n, c);
            lemma_net_drop_tables(p0, schema, live, n, c);
            assert(net_states(p0, drops, n, c) == p0);
            lemma_net_create_tables(p0, schema, live, n, c);
            lemma_net_alters(schema, live, n, c);
            match table_find(live, n) {
                None => {
                    assert(net_states(p0, creates, n, c) == (true, canon_col(m, c)));
                },
                Some(lt) => {
                    assert(net_states(p0, creates, n, c) == p0);
                    assert(p0 == (true, col_content(column_find(lt.columns@, c))));
                },
            }
        }
        assert(slot_of_state(post, n, n) == (true, canon_col(m, n)));
        assert(table_find(post, n) is Some);
        match table_find(post, n) {
            Some(lt2) => {
                assert forall|j: int|
                    0 <= j < lt2.columns@.len() implies m.has_field(
                    (#[trigger] lt2.columns@[j]).name@,
                ) by {
                    let cname = lt2.columns@[j].name@;
                    crate::live_schema::lemma_column_find_exists(lt2.columns@, cname);
                    assert(slot_of_state(post, n, cname) == (true, canon_col(m, cname)));
                    assert(col_content(schema_col(post, n, cname)) is Some);
                }
                assert forall|j: int|
                    0 <= j < m.fields@.len() implies crate::sql_gen::field_matches(
                    #[trigger] m.fields@[j],
                    lt2.columns@,
                ) by {
                    let f = m.fields@[j];
                    assert(m.has_field(f.name@));
                    lemma_field_idx_unique(m.fields@, j);
                    assert(canon_col(m, f.name@) == Some(
                        (spec_column_type(f.ty), f.identity_generation),
                    ));
                    assert(slot_of_state(post, n, f.name@) == (true, canon_col(m, f.name@)));
                }
                assert(crate::sql_gen::table_matches(m, lt2));
            },
            None => {
                assert(false);
            },
        }
    }
}

/// Undoing the created tables empties exactly their slots.
proof fn lemma_net_down_creates(
    p: (bool, Option<(Seq<char>, Option<IdentityGeneration>)>),
    rem: Seq<EntityMeta>,
    live: Seq<LiveTable>,
    n: Seq<char>,
    c: Seq<char>,
)
    requires
        forall|x: int, y: int|
            0 <= x < y < rem.len() ==> (#[trigger] rem[x]).table_name@ != (
            #[trigger] rem[y]).table_name@,
    ensures
        net_states(p, crate::sql_gen::spec_down_creates(rem, live), n, c) == (match meta_find(
            rem,
            n,
        ) {
            Some(m) => if table_find(live, n) is None {
                (false, None::<(Seq<char>, Option<IdentityGeneration>)>)
            } else {
                p
            },
            None => p,
        }),
    decreases rem.len(),
{
    if rem.len() == 0 {
    } else {
        let ops = crate::sql_gen::spec_down_creates(rem, live);
        let rest = crate::sql_gen::spec_down_creates(rem.skip(1), live);
        assert(forall|x: int, y: int|
            0 <= x < y < rem.skip(1).len() ==> (#[trigger] rem.skip(1)[x]).table_name@ != (
            #[trigger] rem.skip(1)[y]).table_name@);
        if rem[0].table_name@ == n {
            lemma_meta_find_exists(rem.skip(1), n);
            assert(forall|k: int|
                0 <= k < rem.skip(1).len() ==> (#[trigger] rem.skip(1)[k]).table_name@ != n);
            assert(meta_find(rem.skip(1), n) is None);
            if table_find(live, n) is None {
                assert(ops =~= seq![DdlOp::DropTable(rem[0].table_name)] + rest);
                assert(ops[0] == DdlOp::DropTable(rem[0].table_name));
                assert(ops.skip(1) =~= rest);
                lemma_net_down_creates(
                    (false, None::<(Seq<char>, Option<IdentityGeneration>)>),
                    rem.skip(1),
                    live,
                    n,
                    c,
                );
            } else {
                assert(ops =~= rest);
                lemma_net_down_creates(p, rem.skip(1), live, n, c);
            }
        } else {
            if table_find(live, rem[0].table_name@) is None {
                assert(ops =~= seq![DdlOp::DropTable(rem[0].table_name)] + rest);
                assert(ops.skip(1) =~= rest);
                assert(net_state(p, ops[0], n, c) == p);
                lemma_net_down_creates(p, rem.skip(1), live, n, c);
            } else {
                assert(ops =~= rest);
                lemma_net_down_creates(p, rem.skip(1), live, n, c);
            }
        }
    }
}

/// Undoing the added columns of one table empties exactly their slots.
proof fn lemma_net_down_fields(
    p: (bool, Option<(Seq<char>, Option<IdentityGeneration>)>),
    table: String,
    fields: Seq<crate::entity_meta::FieldMeta>,
    cols: Seq<crate::live_schema::LiveColumn>,
    c: Seq<char>,
)
    requires
        forall|x: int, y: int|
            0 <= x < y < fields.len() ==> (#[trigger] fields[x]).name@ != (
            #[trigger] fields[y]).name@,
    ensures
        net_states(p, crate::sql_gen::spec_down_fields(table, fields, cols), table@, c) == (if
        field_idx(fields, c) < fields.len() && column_find(cols, c) is None {
            (p.0, None::<(Seq<char>, Option<IdentityGeneration>)>)
        } else {
            p
        }),
    decreases fields.len(),
{
    crate::entity_meta::lemma_field_idx(fields, c);
    if fields.len() == 0 {
    } else {
        let ops = crate::sql_gen::spec_down_fields(table, fields, cols);
        let rest = crate::sql_gen::spec_down_fields(table, fields.skip(1), cols);
        assert(forall|x: int, y: int|
            0 <= x < y < fields.skip(1).len() ==> (#[trigger] fields.skip(1)[x]).name@ != (
            #[trigger] fields.skip(1)[y]).name@);
        crate::entity_meta::lemma_field_idx(fields.skip(1), c);
        if fields[0].name@ == c {
            assert(field_idx(fields, c) == 0);
            assert(forall|k: int|
                0 <= k < fields.skip(1).len() ==> (#[trigger] fields.skip(1)[k]).name@ != c);
            assert(field_idx(fields.skip(1), c) >= fields.skip(1).len());
            match column_find(cols, c) {
                Some(col) => {
                    assert(ops =~= rest);
                    lemma_net_down_fields(p, table, fields.skip(1), cols, c);
                },
                None => {
                    assert(ops =~= seq![DdlOp::DropColumn(table, fields[0].name)] + rest);
                    assert(ops[0] == DdlOp::DropColumn(table, fields[0].name));
                    assert(ops.skip(1) =~= rest);
                    let p1 = (p.0, None::<(Seq<char>, Option<IdentityGeneration>)>);
                    assert(net_state(p, ops[0], table@, c) == p1);
                    lemma_net_down_fields(p1, table, fields.skip(1), cols, c);
                },
            }
        } else {
            match column_find(cols, fields[0].name@) {
                Some(col) => {
                    assert(ops =~= rest);
                },
                None => {
                    assert(ops =~= seq![DdlOp::DropColumn(table, fields[0].name)] + rest);
                    assert(ops.skip(1) =~= rest);
                    assert(net_state(p, ops[0], table@, c) == p);
                },
            }
            lemma_net_down_fields(p, table, fields.skip(1), cols, c);
            if field_idx(fields, c) < fields.len() {
                assert(field_idx(fields, c) == 1 + field_idx(fields.skip(1), c));
            }
        }
    }
}

/// Undoing the column additions, table by table.
proof fn lemma_net_down_alters(rem: Seq<EntityMeta>, live: Seq<LiveTable>, n: Seq<char>, c: Seq<
    char,
>)
    requires
        forall|x: int, y: int|
            0 <= x < y < rem.len() ==> (#[trigger] rem[x]).table_name@ != (
            #[trigger] rem[y]).table_name@,
        forall|i: int, x: int, y: int|
            #![trigger rem[i].fields@[x], rem[i].fields@[y]]
            0 <= i < rem.len() && 0 <= x < y < rem[i].fields@.len() ==> rem[i].fields@[x].name@
                != rem[i].fields@[y].name@,
    ensures
        match meta_find(rem, n) {
            None => forall|p: (bool, Option<(Seq<char>, Option<IdentityGeneration>)>)|
                #[trigger] net_states(p, crate::sql_gen::spec_down_alters(rem, live), n, c) == p,
            Some(m) => match table_find(live, n) {
                None => forall|p: (bool, Option<(Seq<char>, Option<IdentityGeneration>)>)|
                    #[trigger] net_states(p, crate::sql_gen::spec_down_alters(rem, live), n, c)
                        == p,
                Some(lt) => forall|p: (bool, Option<(Seq<char>, Option<IdentityGeneration>)>)|
                    #[trigger] net_states(p, crate::sql_gen::spec_down_alters(rem, live), n, c)
                        == (if field_idx(m.fields@, c) < m.fields@.len() && column_find(
                        lt.columns@,
                        c,
                    ) is None {
                        (p.0, None::<(Seq<char>, Option<IdentityGeneration>)>)
                    } else {
                        p
                    }),
            },
        },
    decreases rem.len(),
{
    if rem.len() == 0 {
    } else {
        let m0 = rem[0];
        let ops = crate::sql_gen::spec_down_alters(rem, live);
        let rest = crate::sql_gen::spec_down_alters(rem.skip(1), live);
        assert(forall|x: int, y: int|
            0 <= x < y < rem.skip(1).len() ==> (#[trigger] rem.skip(1)[x]).table_name@ != (
            #[trigger] rem.skip(1)[y]).table_name@);
        assert forall|i: int, x: int, y: int|
            #![trigger rem.skip(1)[i].fields@[x], rem.skip(1)[i].fields@[y]]
            0 <= i < rem.skip(1).len() && 0 <= x < y < rem.skip(1)[i].fields@.len() implies rem.skip(
            1,
        )[i].fields@[x].name@ != rem.skip(1)[i].fields@[y].name@ by {
            assert(rem.skip(1)[i] == rem[i + 1]);
        }
        lemma_net_down_alters(rem.skip(1), live, n, c);
        let chunk = match table_find(live, m0.table_name@) {
            Some(lt0) => crate::sql_gen::spec_down_fields(m0.table_name, m0.fields@, lt0.columns@),
            None => Seq::<DdlOp>::empty(),
        };
        assert(ops =~= chunk + rest);
        if m0.table_name@ != n {
            assert forall|p: (bool, Option<(Seq<char>, Option<IdentityGeneration>)>)|
                #[trigger] net_states(p, chunk, n, c) == p by {
                match table_find(live, m0.table_name@) {
                    Some(lt0) => {
                        lemma_down_fields_on_table(m0.table_name, m0.fields@, lt0.columns@);
                        lemma_net_other_table(p, chunk, m0.table_name@, n, c);
                    },
                    None => {},
                }
            }
            assert forall|p: (bool, Option<(Seq<char>, Option<IdentityGeneration>)>)|
                #[trigger] net_states(p, ops, n, c) == net_states(p, rest, n, c) by {
                lemma_net_concat(p, chunk, rest, n, c);
            }
        } else {
            assert(meta_find(rem, n) == Some(m0));
            lemma_meta_find_exists(rem.skip(1), n);
            assert(forall|k: int|
                0 <= k < rem.skip(1).len() ==> (#[trigger] rem.skip(1)[k]).table_name@ != n);
            assert(meta_find(rem.skip(1), n) is None);
            match table_find(live, n) {
                None => {
                    assert(ops =~= rest);
                },
                Some(lt) => {
                    assert forall|p: (bool, Option<(Seq<char>, Option<IdentityGeneration>)>)|
                        #[trigger] net_states(p, ops, n, c) == (if field_idx(m0.fields@, c)
                        < m0.fields@.len() && column_find(lt.columns@, c) is None {
                        (p.0, None::<(Seq<char>, Option<IdentityGeneration>)>)
                    } else {
                        p
                    }) by {
                        lemma_net_concat(p, chunk, rest, n, c);
                        assert forall|x: int, y: int|
                            0 <= x < y < m0.fields@.len() implies (
                        #[trigger] m0.fields@[x]).name@ != (#[trigger] m0.fields@[y]).name@ by {
                            assert(rem[0].fields@[x].name@ != rem[0].fields@[y].name@);
                        }
                        lemma_net_down_fields(p, m0.table_name, m0.fields@, lt.columns@, c);
                    }
                },
            }
        }
    }
}

proof fn lemma_down_fields_on_table(
    table: String,
    fields: Seq<crate::entity_meta::FieldMeta>,
    cols: Seq<crate::live_schema::LiveColumn>,
)
    ensures
        forall|k: int|
            0 <= k < crate::sql_gen::spec_down_fields(table, fields, cols).len() ==> op_on_table(
                #[trigger] crate::sql_gen::spec_down_fields(table, fields, cols)[k],
                table@,
            ),
    decreases fields.len(),
{
    if fields.len() == 0 {
    } else {
        lemma_down_fields_on_table(table, fields.skip(1), cols);
        let ops = crate::sql_gen::spec_down_fields(table, fields, cols);
        let rest = crate::sql_gen::spec_down_fields(table, fields.skip(1), cols);
        match column_find(cols, fields[0].name@) {
            Some(col) => {
                assert(ops =~= rest);
            },
            None => {
                assert(ops =~= seq![DdlOp::DropColumn(table, fields[0].name)] + rest);
                assert forall|k: int|
                    0 <= k < ops.len() implies op_on_table(#[trigger] ops[k], table@) by {
                    if k == 0 {
                        assert(ops[0] == DdlOp::DropColumn(table, fields[0].name));
                    } else {
                        assert(ops[k] == rest[k - 1]);
                    }
                }
            },
        }
    }
}

/// The full round-trip law for a change expressible purely as additions:
/// executing the forward batch and then the reverse batch restores the
/// prior live schema exactly — the same tables, columns, types and
/// identity-generation modes.
pub proof fn lemma_round_trip_restores(
    schema: Seq<EntityMeta>,
    live: Seq<LiveTable>,
    mid: Seq<LiveTable>,
    post: Seq<LiveTable>,
)
    requires
        forall|x: int, y: int|
            0 <= x < y < schema.len() ==> (#[trigger] schema[x]).table_name@ != (
            #[trigger] schema[y]).table_name@,
        forall|i: int, x: int, y: int|
            #![trigger schema[i].fields@[x], schema[i].fields@[y]]
            0 <= i < schema.len() && 0 <= x < y < schema[i].fields@.len()
                ==> schema[i].fields@[x].name@ != schema[i].fields@[y].name@,
        crate::sql_gen::additions_only(schema, live),
        applied_ops(live, spec_up_ops(schema, live), mid),
        applied_ops(mid, spec_down_ops(schema, live), post),
    ensures
        same_content(live, post),
{
    let ups = spec_up_ops(schema, live);
    let downs = spec_down_ops(schema, live);
    let drops = spec_drop_tables(schema, live);
    let creates = spec_create_tables(schema, live);
    let alters = spec_alter_ops(schema, live);
    let dcreates = crate::sql_gen::spec_down_creates(schema, live);
    let dalters = crate::sql_gen::spec_down_alters(schema, live);
    assert(ups == (drops + creates) + alters);
    assert(downs == dcreates + dalters);
    assert forall|i: int|
        0 <= i < schema.len() implies !(match table_find(
        live,
        (#[trigger] schema[i]).table_name@,
    ) {
        Some(lt) => spec_table_err(schema[i], lt),
        None => false,
    }) by {
        match table_find(live, schema[i].table_name@) {
            Some(lt) => {
                if spec_table_err(schema[i], lt) {
                    let j = choose|j: int|
                        0 <= j < schema[i].fields@.len() && spec_field_err(
                            #[trigger] schema[i].fields@[j],
                            lt.columns@,
                        );
                }
            },
            None => {},
        }
    }

    assert forall|n: Seq<char>, c: Seq<char>| #[trigger]
        slot_of_state(post, n, c) == slot_of_state(live, n, c) by {
        lemma_applied_net(live, ups, mid, n, c);
        lemma_applied_net(mid, downs, post, n, c);
        let p0 = slot_of_state(live, n, c);
        lemma_net_concat(p0, drops + creates, alters, n, c);
        lemma_net_concat(p0, drops, creates, n, c);
        lemma_net_drop_tables(p0, schema, live, n, c);
        lemma_meta_find_exists(schema, n);
        if table_find(live, n) is Some {
            crate::live_schema::lemma_table_find_exists(live, n);
            let li = choose|li: int| 0 <= li < live.len() && (#[trigger] live[li]).name@ == n;
            assert(meta_find(schema, live[li].name@) is Some);
        }
        assert(net_states(p0, drops, n, c) == p0);
        lemma_net_create_tables(p0, schema, live, n, c);
        lemma_net_alters(schema, live, n, c);
        let pm = slot_of_state(mid, n, c);
        let pdc = net_states(pm, dcreates, n, c);
        lemma_net_concat(pm, dcreates, dalters, n, c);
        lemma_net_down_creates(pm, schema, live, n, c);
        lemma_net_down_alters(schema, live, n, c);
        match meta_find(schema, n) {
            None => {
                assert(pm == p0);
                assert(slot_of_state(post, n, c) == p0);
            },
            Some(m) => {
                crate::entity_meta::lemma_field_idx(m.fields@, c);
                match table_find(live, n) {
                    None => {
                        assert(pm == (true, canon_col(m, c)));
                        assert(pdc == (false, None::<(Seq<char>, Option<IdentityGeneration>)>));
                        assert(p0.0 == false);
                        assert(p0.1 is None);
                        assert(slot_of_state(post, n, c) == p0);
                    },
                    Some(lt) => {
                        assert(p0 == (true, col_content(column_find(lt.columns@, c))));
                        assert(pm == (true, canon_col(m, c)));
                        assert(pdc == pm);
                        let mi = choose|mi: int|
                            0 <= mi < schema.len() && (#[trigger] schema[mi]).table_name@ == n;
                        lemma_meta_find_unique(schema, mi);
                        assert(schema[mi] == m);
                        if field_idx(m.fields@, c) < m.fields@.len() && column_find(
                            lt.columns@,
                            c,
                        ) is None {
                            assert(slot_of_state(post, n, c) == (
                                true,
                                None::<(Seq<char>, Option<IdentityGeneration>)>,
                            ));
                            assert(p0.1 is None);
                        } else {
                            assert(slot_of_state(post, n, c) == pm);
                            if field_idx(m.fields@, c) < m.fields@.len() {
                                let f = m.fields@[field_idx(m.fields@, c)];
                                assert(column_find(lt.columns@, f.name@) is Some);
                                assert(match column_find(lt.columns@, f.name@) {
                                    Some(col) => col.ty@ == spec_column_type(f.ty)
                                        && col.identity_generation == f.identity_generation,
                                    None => true,
                                });
                                assert(canon_col(m, c) == col_content(
                                    column_find(lt.columns@, c),
                                ));
                            } else {
                                assert(!m.has_field(c));
                                crate::live_schema::lemma_column_find_exists(lt.columns@, c);
                                if column_find(lt.columns@, c) is Some {
                                    let cj = choose|cj: int|
                                        0 <= cj < lt.columns@.len() && (
                                        #[trigger] lt.columns@[cj]).name@ == c;
                                    assert(m.has_field(lt.columns@[cj].name@));
                                    assert(false);
                                }
                                assert(canon_col(m, c) is None);
                                assert(p0.1 is None);
                            }
                            assert(pm == p0);
                        }
                    },
                }
            },
        }
    }
    assert forall|n: Seq<char>|
        (#[trigger] table_find(post, n) is Some) == (table_find(live, n) is Some) by {
        assert(slot_of_state(post, n, n) == slot_of_state(live, n, n));
    }
    assert forall|n: Seq<char>, c: Seq<char>|
        col_content(#[trigger] schema_col(post, n, c)) == col_content(schema_col(live, n, c)) by {
        assert(slot_of_state(post, n, c) == slot_of_state(live, n, c));
    }
}

/// The full idempotence law: after the generated forward batch executed,
/// diffing again finds no drift, produces empty batches, and rejects
/// nothing.
pub proof fn lemma_migration_idempotent(
    schema: Seq<EntityMeta>,
    live: Seq<LiveTable>,
    post: Seq<LiveTable>,
)
    requires
        forall|x: int, y: int|
            0 <= x < y < schema.len() ==> (#[trigger] schema[x]).table_name@ != (
            #[trigger] schema[y]).table_name@,
        forall|i: int, x: int, y: int|
            #![trigger schema[i].fields@[x], schema[i].fields@[y]]
            0 <= i < schema.len() && 0 <= x < y < schema[i].fields@.len()
                ==> schema[i].fields@[x].name@ != schema[i].fields@[y].name@,
        !spec_diff_err(schema, live),
        applied_ops(live, spec_up_ops(schema, live), post),
    ensures
        spec_up_ops(schema, post) == Seq::<DdlOp>::empty(),
        spec_down_ops(schema, post) == Seq::<DdlOp>::empty(),
        !spec_diff_err(schema, post),
{
    lemma_apply_up_no_drift(schema, live, post);
    lemma_no_drift_diff_empty(schema, post);
}

} // verus!
