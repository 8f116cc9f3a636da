//! The shape of the live database schema, reconstructed from the catalog:
//! tables, their columns, and each column's dialect type string and
//! identity-generation mode.

use vstd::prelude::*;
use crate::entity_meta::IdentityGeneration;
use crate::text::str_eq;

verus! {

/// One column as the catalog reports it: the dialect-native type string
/// and the parsed identity-generation mode.
#[derive(Debug)]
pub struct LiveColumn {
    pub name: String,
    pub ty: String,
    pub identity_generation: Option<IdentityGeneration>,
}

/// One live table with its columns, in the order the catalog listed
/// them.
#[derive(Debug)]
pub struct LiveTable {
    pub name: String,
    pub columns: Vec<LiveColumn>,
}

/// The first column of the given name, scanning in order.
pub open spec fn column_find(cols: Seq<LiveColumn>, name: Seq<char>) -> Option<LiveColumn>
    decreases cols.len(),
{
    if cols.len() == 0 {
        None
    } else if cols[0].name@ == name {
        Some(cols[0])
    } else {
        column_find(cols.skip(1), name)
    }
}

/// The first table of the given name, scanning in order.
pub open spec fn table_find(tables: Seq<LiveTable>, name: Seq<char>) -> Option<LiveTable>
    decreases tables.len(),
{
    if tables.len() == 0 {
        None
    } else if tables[0].name@ == name {
        Some(tables[0])
    } else {
        table_find(tables.skip(1), name)
    }
}

/// The live schema: every user table, in the order the catalog listed
/// them, so an ordered listing makes everything generated from it
/// deterministic.
#[derive(Debug)]
pub struct LiveSchema {
    pub tables: Vec<LiveTable>,
}

/// A column lookup through the whole schema.
pub open spec fn schema_col(tables: Seq<LiveTable>, t: Seq<char>, c: Seq<char>) -> Option<
    LiveColumn,
> {
    match table_find(tables, t) {
        None => None,
        Some(lt) => column_find(lt.columns@, c),
    }
}

/// Appending a table serves lookups of its name only when no earlier
/// table had it.
pub proof fn lemma_table_find_push(s: Seq<LiveTable>, t: LiveTable, name: Seq<char>)
    ensures
        table_find(s.push(t), name) == (if table_find(s, name) is Some {
            table_find(s, name)
        } else if t.name@ == name {
            Some(t)
        } else {
            None::<LiveTable>
        }),
    decreases s.len(),
{
    if s.len() == 0 {
        assert(s.push(t) =~= seq![t]);
        assert(s.push(t).skip(1) =~= Seq::<LiveTable>::empty());
        assert(table_find(Seq::<LiveTable>::empty(), name) is None);
        assert(s.push(t)[0] == t);
    } else {
        assert(s.push(t)[0] == s[0]);
        if s[0].name@ == name {
            assert(table_find(s.push(t), name) == Some(s[0]));
        } else {
            assert(s.push(t).skip(1) =~= s.skip(1).push(t));
            lemma_table_find_push(s.skip(1), t, name);
        }
    }
}

/// Replacing a table without changing its name changes only lookups of
/// that name, when table names are distinct.
pub proof fn lemma_table_find_update(s: Seq<LiveTable>, i: int, t2: LiveTable, name: Seq<char>)
    requires
        0 <= i < s.len(),
        t2.name@ == s[i].name@,
        forall|p: int, q: int|
            0 <= p < q < s.len() ==> (#[trigger] s[p]).name@ != (#[trigger] s[q]).name@,
    ensures
        table_find(s.update(i, t2), name) == (if name == s[i].name@ {
            Some(t2)
        } else {
            table_find(s, name)
        }),
    decreases s.len(),
{
    if s.len() == 0 {
    } else if i == 0 {
        assert(s.update(0, t2)[0] == t2);
        if name == s[0].name@ {
        } else {
            assert(s.update(0, t2).skip(1) =~= s.skip(1));
        }
    } else {
        assert(s.update(i, t2)[0] == s[0]);
        if s[0].name@ == name {
            assert(s[0].name@ != s[i].name@);
        } else {
            assert(s.update(i, t2).skip(1) =~= s.skip(1).update(i - 1, t2));
            assert(forall|p: int, q: int|
                0 <= p < q < s.skip(1).len() ==> (#[trigger] s.skip(1)[p]).name@ != (
                #[trigger] s.skip(1)[q]).name@);
            lemma_table_find_update(s.skip(1), i - 1, t2, name);
        }
    }
}

/// Appending a column serves lookups of its name only when no earlier
/// column had it.
pub proof fn lemma_column_find_push(s: Seq<LiveColumn>, c: LiveColumn, name: Seq<char>)
    ensures
        column_find(s.push(c), name) == (if column_find(s, name) is Some {
            column_find(s, name)
        } else if c.name@ == name {
            Some(c)
        } else {
            None::<LiveColumn>
        }),
    decreases s.len(),
{
    if s.len() == 0 {
        assert(s.push(c) =~= seq![c]);
        assert(s.push(c).skip(1) =~= Seq::<LiveColumn>::empty());
        assert(column_find(Seq::<LiveColumn>::empty(), name) is None);
        assert(s.push(c)[0] == c);
    } else {
        assert(s.push(c)[0] == s[0]);
        if s[0].name@ == name {
            assert(column_find(s.push(c), name) == Some(s[0]));
        } else {
            assert(s.push(c).skip(1) =~= s.skip(1).push(c));
            lemma_column_find_push(s.skip(1), c, name);
        }
    }
}

/// Finds a column by name, as `column_find` does.
pub fn find_column<'a>(cols: &'a Vec<LiveColumn>, name: &str) -> (r: Option<&'a LiveColumn>)
    ensures
        match r {
            Some(c) => column_find(cols@, name@) == Some(*c),
            None => column_find(cols@, name@) is None,
        },
{
    let mut i: usize = 0;
    proof {
        assert(cols@.skip(0) =~= cols@);
    }
    while i < cols.len()
        invariant
            i <= cols@.len(),
            column_find(cols@, name@) == column_find(cols@.skip(i as int), name@),
        decreases cols@.len() - i,
    {
        proof {
            assert(cols@.skip(i as int).skip(1) =~= cols@.skip(i as int + 1));
        }
        if str_eq(cols[i].name.as_str(), name) {
            assert(cols@.skip(i as int)[0] == cols@[i as int]);
            return Some(&cols[i]);
        }
        assert(cols@.skip(i as int)[0] == cols@[i as int]);
        i = i + 1;
    }
    assert(cols@.skip(i as int) =~= Seq::<LiveColumn>::empty());
    None
}

/// Finds a table by name, as `table_find` does.
pub fn find_table<'a>(tables: &'a Vec<LiveTable>, name: &str) -> (r: Option<&'a LiveTable>)
    ensures
        match r {
            Some(t) => table_find(tables@, name@) == Some(*t),
            None => table_find(tables@, name@) is None,
        },
{
    let mut i: usize = 0;
    proof {
        assert(tables@.skip(0) =~= tables@);
    }
    while i < tables.len()
        invariant
            i <= tables@.len(),
            table_find(tables@, name@) == table_find(tables@.skip(i as int), name@),
        decreases tables@.len() - i,
    {
        proof {
            assert(tables@.skip(i as int).skip(1) =~= tables@.skip(i as int + 1));
        }
        if str_eq(tables[i].name.as_str(), name) {
            assert(tables@.skip(i as int)[0] == tables@[i as int]);
            return Some(&tables[i]);
        }
        assert(tables@.skip(i as int)[0] == tables@[i as int]);
        i = i + 1;
    }
    assert(tables@.skip(i as int) =~= Seq::<LiveTable>::empty());
    None
}

/// A table lookup is served exactly when some table has the name.
pub proof fn lemma_table_find_exists(s: Seq<LiveTable>, name: Seq<char>)
    ensures
        (table_find(s, name) is Some) == (exists|k: int|
            0 <= k < s.len() && (#[trigger] s[k]).name@ == name),
    decreases s.len(),
{
    if s.len() == 0 {
    } else if s[0].name@ == name {
    } else {
        lemma_table_find_exists(s.skip(1), name);
        if exists|k: int| 0 <= k < s.len() && (#[trigger] s[k]).name@ == name {
            let k = choose|k: int| 0 <= k < s.len() && (#[trigger] s[k]).name@ == name;
            assert(s.skip(1)[k - 1] == s[k]);
        }
        if exists|k: int| 0 <= k < s.skip(1).len() && (#[trigger] s.skip(1)[k]).name@ == name {
            let k = choose|k: int|
                0 <= k < s.skip(1).len() && (#[trigger] s.skip(1)[k]).name@ == name;
            assert(s[k + 1] == s.skip(1)[k]);
        }
    }
}

/// A column lookup is served exactly when some column has the name.
pub proof fn lemma_column_find_exists(s: Seq<LiveColumn>, name: Seq<char>)
    ensures
        (column_find(s, name) is Some) == (exists|k: int|
            0 <= k < s.len() && (#[trigger] s[k]).name@ == name),
    decreases s.len(),
{
    if s.len() == 0 {
    } else if s[0].name@ == name {
    } else {
        lemma_column_find_exists(s.skip(1), name);
        if exists|k: int| 0 <= k < s.len() && (#[trigger] s[k]).name@ == name {
            let k = choose|k: int| 0 <= k < s.len() && (#[trigger] s[k]).name@ == name;
            assert(s.skip(1)[k - 1] == s[k]);
        }
        if exists|k: int| 0 <= k < s.skip(1).len() && (#[trigger] s.skip(1)[k]).name@ == name {
            let k = choose|k: int|
                0 <= k < s.skip(1).len() && (#[trigger] s.skip(1)[k]).name@ == name;
            assert(s[k + 1] == s.skip(1)[k]);
        }
    }
}

/// The index of the table serving a lookup.
fn table_index(tables: &Vec<LiveTable>, name: &str) -> (r: Option<usize>)
    ensures
        match r {
            Some(i) => i < tables@.len() && tables@[i as int].name@ == name@ && table_find(
                tables@,
                name@,
            ) == Some(tables@[i as int]),
            None => table_find(tables@, name@) is None,
        },
{
    let mut i: usize = 0;
    proof {
        assert(tables@.skip(0) =~= tables@);
    }
    while i < tables.len()
        invariant
            i <= tables@.len(),
            table_find(tables@, name@) == table_find(tables@.skip(i as int), name@),
        decreases tables@.len() - i,
    {
        proof {
            assert(tables@.skip(i as int).skip(1) =~= tables@.skip(i as int + 1));
            assert(tables@.skip(i as int)[0] == tables@[i as int]);
        }
        if str_eq(tables[i].name.as_str(), name) {
            return Some(i);
        }
        i = i + 1;
    }
    proof {
        assert(tables@.skip(i as int) =~= Seq::<LiveTable>::empty());
    }
    None
}

/// One column row of the catalog listing, as the introspection queries
/// report it: the identity-generation mode still a dialect label.
#[derive(Debug)]
pub struct ColumnRow {
    pub table_name: String,
    pub column_name: String,
    pub data_type: String,
    pub identity_generation: Option<String>,
}

/// A catalog listing the builder refuses.
#[derive(Debug)]
pub enum CatalogError {
    /// Two rows name the same table and column.
    DuplicateColumn { table: String, column: String },
    /// An identity-generation label the dialect does not emit.
    UnknownIdentityGeneration { label: String },
}

/// Whether a row's identity label is one the dialect emits.
pub open spec fn row_ident_valid(r: ColumnRow) -> bool {
    match r.identity_generation {
        None => true,
        Some(l) => l@ == "ALWAYS"@ || l@ == "BY DEFAULT"@,
    }
}

/// The parsed identity-generation mode of a row.
pub open spec fn row_ident(r: ColumnRow) -> Option<IdentityGeneration> {
    match r.identity_generation {
        None => None,
        Some(l) => if l@ == "ALWAYS"@ {
            Some(IdentityGeneration::Always)
        } else {
            Some(IdentityGeneration::ByDefault)
        },
    }
}

/// Two rows collide on the same table and column.
pub open spec fn rows_dup(rows: Seq<ColumnRow>) -> bool {
    exists|p: int, q: int|
        0 <= p < q < rows.len() && (#[trigger] rows[p]).table_name@ == (
        #[trigger] rows[q]).table_name@ && rows[p].column_name@ == rows[q].column_name@
}

/// Some row carries an unknown identity label.
pub open spec fn rows_invalid(rows: Seq<ColumnRow>) -> bool {
    exists|i: int| 0 <= i < rows.len() && !row_ident_valid(#[trigger] rows[i])
}

/// Pairwise-distinct table names.
pub open spec fn tables_uniq(s: Seq<LiveTable>) -> bool {
    forall|p: int, q: int|
        0 <= p < q < s.len() ==> (#[trigger] s[p]).name@ != (#[trigger] s[q]).name@
}

/// Pairwise-distinct column names within every table.
pub open spec fn cols_uniq(s: Seq<LiveTable>) -> bool {
    forall|t: int, p: int, q: int|
        #![trigger s[t].columns@[p], s[t].columns@[q]]
        0 <= t < s.len() && 0 <= p < q < s[t].columns@.len() ==> s[t].columns@[p].name@
            != s[t].columns@[q].name@
}

/// Registers a table seen for the first time, holding one column built
/// from the row.
fn add_new_table(acc: &mut Vec<LiveTable>, row: &ColumnRow, ident: Option<IdentityGeneration>)
    requires
        table_find(old(acc)@, row.table_name@) is None,
    ensures
        forall|t: Seq<char>|
            t != row.table_name@ ==> #[trigger] table_find(final(acc)@, t) == table_find(
                old(acc)@,
                t,
            ),
        forall|t: Seq<char>, c: Seq<char>|
            t != row.table_name@ ==> #[trigger] schema_col(final(acc)@, t, c) == schema_col(
                old(acc)@,
                t,
                c,
            ),
        table_find(final(acc)@, row.table_name@) is Some,
        (match schema_col(final(acc)@, row.table_name@, row.column_name@) {
            Some(c) => c.ty@ == row.data_type@ && c.identity_generation == ident,
            None => false,
        }),
        forall|c: Seq<char>|
            c != row.column_name@ ==> #[trigger] schema_col(
                final(acc)@,
                row.table_name@,
                c,
            ) is None,
        tables_uniq(old(acc)@) ==> tables_uniq(final(acc)@),
        cols_uniq(old(acc)@) ==> cols_uniq(final(acc)@),
{
    let col = LiveColumn {
        name: row.column_name.clone(),
        ty: row.data_type.clone(),
        identity_generation: ident,
    };
    let mut cols: Vec<LiveColumn> = Vec::new();
    cols.push(col);
    let tbl = LiveTable { name: row.table_name.clone(), columns: cols };
    let ghost acc0 = acc@;
    let ghost tbl_s = tbl;
    acc.push(tbl);
    proof {
        lemma_table_find_exists(acc0, row.table_name@);
        assert forall|t: Seq<char>|
            t != row.table_name@ implies #[trigger] table_find(acc@, t) == table_find(
            acc0,
            t,
        ) by {
            lemma_table_find_push(acc0, tbl_s, t);
        }
        assert(table_find(acc@, row.table_name@) == Some(tbl_s)) by {
            lemma_table_find_push(acc0, tbl_s, row.table_name@);
        }
        assert(tbl_s.columns@.skip(1) =~= Seq::<LiveColumn>::empty());
        assert forall|c: Seq<char>|
            c != row.column_name@ implies #[trigger] schema_col(
            acc@,
            row.table_name@,
            c,
        ) is None by {
            assert(tbl_s.columns@[0].name@ == row.column_name@);
            assert(column_find(tbl_s.columns@, c) == column_find(
                Seq::<LiveColumn>::empty(),
                c,
            ));
            assert(column_find(Seq::<LiveColumn>::empty(), c) is None);
        }
        if tables_uniq(acc0) {
            assert forall|p: int, q: int|
                0 <= p < q < acc@.len() implies (#[trigger] acc@[p]).name@ != (
            #[trigger] acc@[q]).name@ by {
                if q == acc0.len() {
                    assert(acc@[p] == acc0[p]);
                }
            }
        }
        if cols_uniq(acc0) {
            assert forall|t: int, p: int, q: int|
                #![trigger acc@[t].columns@[p], acc@[t].columns@[q]]
                0 <= t < acc@.len() && 0 <= p < q < acc@[t].columns@.len() implies acc@[
            t].columns@[p].name@ != acc@[t].columns@[q].name@ by {
                if t < acc0.len() {
                    assert(acc@[t] == acc0[t]);
                } else {
                    assert(acc@[t].columns@.len() == 1);
                }
            }
        }
    }
}

/// Adds the row's column to the table that already holds the rest of its
/// columns.
fn add_column_to(acc: &mut Vec<LiveTable>, ti: usize, row: &ColumnRow, ident: Option<
    IdentityGeneration,
>)
    requires
        ti < old(acc)@.len(),
        old(acc)@[ti as int].name@ == row.table_name@,
        tables_uniq(old(acc)@),
        column_find(old(acc)@[ti as int].columns@, row.column_name@) is None,
    ensures
        forall|t: Seq<char>|
            t != row.table_name@ ==> #[trigger] table_find(final(acc)@, t) == table_find(
                old(acc)@,
                t,
            ),
        forall|t: Seq<char>, c: Seq<char>|
            t != row.table_name@ ==> #[trigger] schema_col(final(acc)@, t, c) == schema_col(
                old(acc)@,
                t,
                c,
            ),
        table_find(final(acc)@, row.table_name@) is Some,
        (match schema_col(final(acc)@, row.table_name@, row.column_name@) {
            Some(c) => c.ty@ == row.data_type@ && c.identity_generation == ident,
            None => false,
        }),
        forall|c: Seq<char>|
            c != row.column_name@ ==> #[trigger] schema_col(final(acc)@, row.table_name@, c)
                == schema_col(old(acc)@, row.table_name@, c),
        tables_uniq(final(acc)@),
        cols_uniq(old(acc)@) ==> cols_uniq(final(acc)@),
{
    let col = LiveColumn {
        name: row.column_name.clone(),
        ty: row.data_type.clone(),
        identity_generation: ident,
    };
    let ghost acc0 = acc@;
    let mut tbl = acc.remove(ti);
    let ghost old_cols = tbl.columns@;
    tbl.columns.push(col);
    let ghost tbl_s = tbl;
    acc.insert(ti, tbl);
    proof {
        assert(acc@ =~= acc0.update(ti as int, tbl_s));
        lemma_column_find_exists(old_cols, row.column_name@);
        assert forall|t: Seq<char>|
            t != row.table_name@ implies #[trigger] table_find(acc@, t) == table_find(
            acc0,
            t,
        ) by {
            lemma_table_find_update(acc0, ti as int, tbl_s, t);
        }
        assert(table_find(acc@, row.table_name@) == Some(tbl_s)) by {
            lemma_table_find_update(acc0, ti as int, tbl_s, row.table_name@);
        }
        assert(table_find(acc0, row.table_name@) == Some(acc0[ti as int])) by {
            lemma_table_find_unique(acc0, ti as int);
        }
        assert(column_find(tbl_s.columns@, row.column_name@) == Some(tbl_s.columns@.last())) by {
            lemma_column_find_push(old_cols, tbl_s.columns@.last(), row.column_name@);
        }
        assert forall|c: Seq<char>|
            c != row.column_name@ implies #[trigger] schema_col(acc@, row.table_name@, c)
            == schema_col(acc0, row.table_name@, c) by {
            lemma_column_find_push(old_cols, tbl_s.columns@.last(), c);
        }
        assert forall|p: int, q: int|
            0 <= p < q < acc@.len() implies (#[trigger] acc@[p]).name@ != (
        #[trigger] acc@[q]).name@ by {
            assert(acc@[p].name@ == acc0[p].name@);
            assert(acc@[q].name@ == acc0[q].name@);
        }
        if cols_uniq(acc0) {
            assert forall|t: int, p: int, q: int|
                #![trigger acc@[t].columns@[p], acc@[t].columns@[q]]
                0 <= t < acc@.len() && 0 <= p < q < acc@[t].columns@.len() implies acc@[
            t].columns@[p].name@ != acc@[t].columns@[q].name@ by {
                if t != ti as int {
                    assert(acc@[t] == acc0[t]);
                } else {
                    assert(forall|u: int|
                        0 <= u < old_cols.len() ==> (#[trigger] old_cols[u]).name@
                            != row.column_name@);
                    assert(forall|u: int|
                        0 <= u < old_cols.len() ==> acc@[ti as int].columns@[u] == old_cols[u]);
                }
            }
        }
    }
}

/// Registers a table of the table listing that had no column rows.
fn add_empty_table(acc: &mut Vec<LiveTable>, name: &String)
    requires
        table_find(old(acc)@, name@) is None,
    ensures
        forall|t: Seq<char>|
            t != name@ ==> #[trigger] table_find(final(acc)@, t) == table_find(old(acc)@, t),
        table_find(final(acc)@, name@) is Some,
        forall|c: Seq<char>| #[trigger] schema_col(final(acc)@, name@, c) is None,
        forall|t: Seq<char>, c: Seq<char>|
            t != name@ ==> #[trigger] schema_col(final(acc)@, t, c) == schema_col(old(acc)@, t, c),
        tables_uniq(old(acc)@) ==> tables_uniq(final(acc)@),
        cols_uniq(old(acc)@) ==> cols_uniq(final(acc)@),
{
    let tbl = LiveTable { name: name.clone(), columns: Vec::new() };
    let ghost acc0 = acc@;
    let ghost tbl_s = tbl;
    acc.push(tbl);
    proof {
        lemma_table_find_exists(acc0, name@);
        assert forall|t: Seq<char>|
            t != name@ implies #[trigger] table_find(acc@, t) == table_find(acc0, t) by {
            lemma_table_find_push(acc0, tbl_s, t);
        }
        assert(table_find(acc@, name@) == Some(tbl_s)) by {
            lemma_table_find_push(acc0, tbl_s, name@);
        }
        assert(column_find(tbl_s.columns@, Seq::<char>::empty()) is None);
        if tables_uniq(acc0) {
            assert forall|p: int, q: int|
                0 <= p < q < acc@.len() implies (#[trigger] acc@[p]).name@ != (
            #[trigger] acc@[q]).name@ by {
                if q == acc0.len() {
                    assert(acc@[p] == acc0[p]);
                }
            }
        }
        if cols_uniq(acc0) {
            assert forall|t: int, p: int, q: int|
                #![trigger acc@[t].columns@[p], acc@[t].columns@[q]]
                0 <= t < acc@.len() && 0 <= p < q < acc@[t].columns@.len() implies acc@[
            t].columns@[p].name@ != acc@[t].columns@[q].name@ by {
                if t < acc0.len() {
                    assert(acc@[t] == acc0[t]);
                }
            }
        }
    }
}

/// With distinct table names, the table at any index serves the lookup
/// of its name.
proof fn lemma_table_find_unique(s: Seq<LiveTable>, i: int)
    requires
        tables_uniq(s),
        0 <= i < s.len(),
    ensures
        table_find(s, s[i].name@) == Some(s[i]),
    decreases i,
{
    if i == 0 {
    } else {
        assert(s[0].name@ != s[i].name@);
        assert(s.skip(1)[i - 1] == s[i]);
        assert(forall|p: int, q: int|
            0 <= p < q < s.skip(1).len() ==> (#[trigger] s.skip(1)[p]).name@ != (
            #[trigger] s.skip(1)[q]).name@);
        lemma_table_find_unique(s.skip(1), i - 1);
    }
}

/// Groups the catalog's column rows into the live schema and registers
/// the column-less tables of the table listing. Table order and column
/// order follow first appearance, so an ordered listing yields an
/// ordered schema.
#[verifier::loop_isolation(false)]
#[verifier::rlimit(100)]
#[verifier::spinoff_prover]
pub fn build_live_schema(rows: &Vec<ColumnRow>, tables: &Vec<String>) -> (r: Result<
    LiveSchema,
    CatalogError,
>)
    ensures
        r is Err <==> (rows_dup(rows@) || rows_invalid(rows@)),
        r matches Err(CatalogError::DuplicateColumn { table, column }) ==> rows_dup(rows@),
        r matches Err(CatalogError::UnknownIdentityGeneration { label }) ==> rows_invalid(rows@),
        match r {
            Ok(ls) => {
                &&& tables_uniq(ls.tables@)
                &&& cols_uniq(ls.tables@)
                &&& (forall|i: int|
                    0 <= i < rows@.len() ==> (match schema_col(
                        ls.tables@,
                        (#[trigger] rows@[i]).table_name@,
                        rows@[i].column_name@,
                    ) {
                        Some(c) => c.ty@ == rows@[i].data_type@ && c.identity_generation
                            == row_ident(rows@[i]),
                        None => false,
                    }))
                &&& (forall|k: int|
                    0 <= k < tables@.len() ==> table_find(
                        ls.tables@,
                        (#[trigger] tables@[k])@,
                    ) is Some)
                &&& (forall|t: Seq<char>|
                    #[trigger] table_find(ls.tables@, t) is Some ==> ((exists|i: int|
                        0 <= i < rows@.len() && (#[trigger] rows@[i]).table_name@ == t) || (
                    exists|k: int| 0 <= k < tables@.len() && (#[trigger] tables@[k])@ == t)))
                &&& (forall|t: Seq<char>, c: Seq<char>|
                    #[trigger] schema_col(ls.tables@, t, c) is Some ==> exists|i: int|
                        0 <= i < rows@.len() && (#[trigger] rows@[i]).table_name@ == t && rows@[
                        i].column_name@ == c)
            },
            Err(e) => true,
        },
{
    let mut acc: Vec<LiveTable> = Vec::new();
    let mut i: usize = 0;
    while i < rows.len()
        invariant
            i <= rows@.len(),
            tables_uniq(acc@),
            cols_uniq(acc@),
            forall|r: int|
                0 <= r < i ==> (match schema_col(
                    acc@,
                    (#[trigger] rows@[r]).table_name@,
                    rows@[r].column_name@,
                ) {
                    Some(c) => c.ty@ == rows@[r].data_type@ && c.identity_generation == row_ident(
                        rows@[r],
                    ),
                    None => false,
                }),
            forall|t: Seq<char>|
                #[trigger] table_find(acc@, t) is Some ==> exists|r: int|
                    0 <= r < i && (#[trigger] rows@[r]).table_name@ == t,
            forall|t: Seq<char>, c: Seq<char>|
                #[trigger] schema_col(acc@, t, c) is Some ==> exists|r: int|
                    0 <= r < i && (#[trigger] rows@[r]).table_name@ == t && rows@[r].column_name@
                        == c,
            forall|p: int, q: int|
                0 <= p < q < i ==> !((#[trigger] rows@[p]).table_name@ == (
                #[trigger] rows@[q]).table_name@ && rows@[p].column_name@ == rows@[q].column_name@),
            forall|r: int| 0 <= r < i ==> row_ident_valid(#[trigger] rows@[r]),
        decreases rows@.len() - i,
    {
        let row = &rows[i];
        let ident: Option<IdentityGeneration> = match &row.identity_generation {
            None => None,
            Some(l) => match IdentityGeneration::parse_name(l.as_str()) {
                Some(g) => Some(g),
                None => {
                    proof {
                        assert(!row_ident_valid(rows@[i as int]));
                    }
                    return Err(CatalogError::UnknownIdentityGeneration { label: l.clone() });
                },
            },
        };
        proof {
            assert(row_ident_valid(rows@[i as int]));
            assert(ident == row_ident(rows@[i as int]));
        }
        match table_index(&acc, row.table_name.as_str()) {
            None => {
                add_new_table(&mut acc, row, ident);
            },
            Some(ti) => {
                if find_column(&acc[ti].columns, row.column_name.as_str()).is_some() {
                    proof {
                        lemma_table_find_unique(acc@, ti as int);
                        assert(schema_col(acc@, rows@[i as int].table_name@, rows@[
                            i as int].column_name@) is Some);
                        assert(rows_dup(rows@));
                    }
                    return Err(
                        CatalogError::DuplicateColumn {
                            table: row.table_name.clone(),
                            column: row.column_name.clone(),
                        },
                    );
                }
                add_column_to(&mut acc, ti, row, ident);
            },
        }
        i = i + 1;
    }

    let mut k: usize = 0;
    while k < tables.len()
        invariant
            k <= tables@.len(),
            tables_uniq(acc@),
            cols_uniq(acc@),
            forall|r: int|
                0 <= r < rows@.len() ==> (match schema_col(
                    acc@,
                    (#[trigger] rows@[r]).table_name@,
                    rows@[r].column_name@,
                ) {
                    Some(c) => c.ty@ == rows@[r].data_type@ && c.identity_generation == row_ident(
                        rows@[r],
                    ),
                    None => false,
                }),
            forall|t: Seq<char>|
                #[trigger] table_find(acc@, t) is Some ==> ((exists|r: int|
                    0 <= r < rows@.len() && (#[trigger] rows@[r]).table_name@ == t) || (exists|
                u: int|
                    0 <= u < k && (#[trigger] tables@[u])@ == t)),
            forall|t: Seq<char>, c: Seq<char>|
                #[trigger] schema_col(acc@, t, c) is Some ==> exists|r: int|
                    0 <= r < rows@.len() && (#[trigger] rows@[r]).table_name@ == t && rows@[
                    r].column_name@ == c,
            forall|u: int| 0 <= u < k ==> table_find(acc@, (#[trigger] tables@[u])@) is Some,
        decreases tables@.len() - k,
    {
        match table_index(&acc, tables[k].as_str()) {
            Some(_) => {},
            None => {
                add_empty_table(&mut acc, &tables[k]);
            },
        }
        k = k + 1;
    }

    Ok(LiveSchema { tables: acc })
}

} // verus!
