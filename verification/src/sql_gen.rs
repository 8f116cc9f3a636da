//! DDL generation for the reference dialect: rendering of the individual
//! statements, and the schema differ that turns a declared schema and the
//! introspected live schema into ordered `up`/`down` statement batches.

use vstd::prelude::*;
use vstd::string::StringExecFns;
use crate::entity_meta::{find_meta, meta_find, EntityMeta, FieldMeta, FieldType, IdentityGeneration};
use crate::live_schema::{column_find, find_column, find_table, table_find, LiveColumn, LiveSchema, LiveTable};

verus! {

/// The dialect type string for a declared field type.
pub open spec fn spec_column_type(ty: FieldType) -> Seq<char> {
    match ty {
        FieldType::I32 => "integer"@,
        FieldType::Text => "character varying"@,
    }
}

/// The dialect label for an identity-generation mode.
pub open spec fn spec_identity_label(g: IdentityGeneration) -> Seq<char> {
    match g {
        IdentityGeneration::Always => "ALWAYS"@,
        IdentityGeneration::ByDefault => "BY DEFAULT"@,
    }
}

/// The inline constraints of one column: nullability, then the identity
/// clause if the field has one.
pub open spec fn spec_column_constraints(f: FieldMeta) -> Seq<char> {
    (if f.optional {
        "NULL"@
    } else {
        "NOT NULL"@
    }) + (match f.identity_generation {
        Some(g) => " GENERATED "@ + spec_identity_label(g) + " AS IDENTITY"@,
        None => Seq::<char>::empty(),
    })
}

/// One column line of a `CREATE TABLE` body.
pub open spec fn spec_column_line(f: FieldMeta) -> Seq<char> {
    "\n\t\""@ + f.name@ + "\" "@ + spec_column_type(f.ty) + " "@ + spec_column_constraints(f)
}

/// The column lines of a `CREATE TABLE` body, joined with commas.
pub open spec fn spec_column_lines(fields: Seq<FieldMeta>) -> Seq<char>
    decreases fields.len(),
{
    if fields.len() == 0 {
        Seq::<char>::empty()
    } else if fields.len() == 1 {
        spec_column_line(fields[0])
    } else {
        spec_column_line(fields[0]) + ","@ + spec_column_lines(fields.skip(1))
    }
}

/// The quoted primary-key column list, joined with `", "`.
pub open spec fn spec_pk_cols(pk: Seq<String>) -> Seq<char>
    decreases pk.len(),
{
    if pk.len() == 0 {
        Seq::<char>::empty()
    } else if pk.len() == 1 {
        "\""@ + pk[0]@ + "\""@
    } else {
        "\""@ + pk[0]@ + "\""@ + ", "@ + spec_pk_cols(pk.skip(1))
    }
}

pub open spec fn spec_pk_line(pk: Seq<String>) -> Seq<char> {
    "\n\tPRIMARY KEY ("@ + spec_pk_cols(pk) + ")"@
}

/// The full `CREATE TABLE` statement for one declared entity.
pub open spec fn spec_create_table(m: EntityMeta) -> Seq<char> {
    let body = if m.primary_key@.len() == 0 {
        spec_column_lines(m.fields@)
    } else if m.fields@.len() == 0 {
        spec_pk_line(m.primary_key@)
    } else {
        spec_column_lines(m.fields@) + ","@ + spec_pk_line(m.primary_key@)
    };
    "CREATE TABLE \""@ + m.table_name@ + "\" ("@ + body + "\n);\n"@
}

pub open spec fn spec_drop_table(table: Seq<char>) -> Seq<char> {
    "DROP TABLE \""@ + table + "\";"@
}

pub open spec fn spec_create_column(table: Seq<char>, f: FieldMeta) -> Seq<char> {
    "ALTER TABLE \""@ + table + "\" ADD COLUMN \""@ + f.name@ + "\" "@ + spec_column_type(f.ty)
        + " "@ + spec_column_constraints(f) + ";"@
}

pub open spec fn spec_drop_column(table: Seq<char>, column: Seq<char>) -> Seq<char> {
    "ALTER TABLE \""@ + table + "\" DROP COLUMN \""@ + column + "\";"@
}

pub open spec fn spec_update_column(table: Seq<char>, f: FieldMeta) -> Seq<char> {
    "ALTER TABLE \""@ + table + "\" ALTER COLUMN \""@ + f.name@ + "\" TYPE "@ + spec_column_type(
        f.ty,
    ) + ";"@
}

pub open spec fn spec_add_identity_generation(table: Seq<char>, f: FieldMeta) -> Seq<char> {
    "ALTER TABLE \""@ + table + "\" ALTER COLUMN \""@ + f.name@ + "\" ADD GENERATED "@ + (match f
        .identity_generation {
        Some(g) => spec_identity_label(g),
        None => Seq::<char>::empty(),
    }) + " AS IDENTITY;"@
}

/// Generates the reference dialect's DDL from declared metadata.
pub struct PostgresSqlGen {
    pub entities: Vec<EntityMeta>,
}

impl PostgresSqlGen {
    pub fn new(entities: Vec<EntityMeta>) -> (r: Self)
        ensures
            r.entities == entities,
    {
        PostgresSqlGen { entities }
    }

    /// The dialect type string of a field type.
    pub fn entity_type_to_column_type(ty: FieldType) -> (r: &'static str)
        ensures
            r@ == spec_column_type(ty),
    {
        match ty {
            FieldType::I32 => "integer",
            FieldType::Text => "character varying",
        }
    }

    /// The dialect label of an identity-generation mode.
    pub fn identity_generation(identity_generation: IdentityGeneration) -> (r: &'static str)
        ensures
            r@ == spec_identity_label(identity_generation),
    {
        match identity_generation {
            IdentityGeneration::Always => "ALWAYS",
            IdentityGeneration::ByDefault => "BY DEFAULT",
        }
    }

    /// The inline constraint list of one column.
    pub fn make_column_constraints(field: &FieldMeta) -> (r: String)
        ensures
            r@ == spec_column_constraints(*field),
    {
        let mut s = String::new();
        if field.optional {
            s.append("NULL");
        } else {
            s.append("NOT NULL");
        }
        match &field.identity_generation {
            Some(g) => {
                s.append(" GENERATED ");
                s.append(Self::identity_generation(*g));
                s.append(" AS IDENTITY");
            },
            None => {},
        }
        proof {
            assert(s@ =~= spec_column_constraints(*field));
        }
        s
    }

    /// The `CREATE TABLE` statement for one declared entity.
    pub fn create_table(&self, entity: &EntityMeta) -> (r: String)
        ensures
            r@ == spec_create_table(*entity),
    {
        let mut s = String::new();
        s.append("CREATE TABLE \"");
        s.append(entity.table_name.as_str());
        s.append("\" (");
        let mut i: usize = 0;
        while i < entity.fields.len()
            invariant
                i <= entity.fields@.len(),
                s@ == "CREATE TABLE \""@ + entity.table_name@ + "\" ("@ + spec_column_lines(
                    entity.fields@.take(i as int),
                ),
            decreases entity.fields@.len() - i,
        {
            if i > 0 {
                s.append(",");
            }
            s.append("\n\t\"");
            s.append(entity.fields[i].name.as_str());
            s.append("\" ");
            s.append(Self::entity_type_to_column_type(entity.fields[i].ty));
            s.append(" ");
            let cons = Self::make_column_constraints(&entity.fields[i]);
            s.append(cons.as_str());
            proof {
                lemma_column_lines_push(entity.fields@.take(i as int), entity.fields@[i as int]);
                assert(entity.fields@.take(i as int).push(entity.fields@[i as int]) =~= entity
                    .fields@.take(i as int + 1));
                assert(s@ =~= "CREATE TABLE \""@ + entity.table_name@ + "\" ("@
                    + spec_column_lines(entity.fields@.take(i as int + 1)));
            }
            i = i + 1;
        }
        proof {
            assert(entity.fields@.take(entity.fields@.len() as int) =~= entity.fields@);
        }
        if entity.primary_key.len() > 0 {
            if entity.fields.len() > 0 {
                s.append(",");
            }
            s.append("\n\tPRIMARY KEY (");
            let mut k: usize = 0;
            let ghost base = s@;
            while k < entity.primary_key.len()
                invariant
                    k <= entity.primary_key@.len(),
                    s@ == base + spec_pk_cols(entity.primary_key@.take(k as int)),
                decreases entity.primary_key@.len() - k,
            {
                if k > 0 {
                    s.append(", ");
                }
                s.append("\"");
                s.append(entity.primary_key[k].as_str());
                s.append("\"");
                proof {
                    lemma_pk_cols_push(
                        entity.primary_key@.take(k as int),
                        entity.primary_key@[k as int],
                    );
                    assert(entity.primary_key@.take(k as int).push(entity.primary_key@[k as int])
                        =~= entity.primary_key@.take(k as int + 1));
                    assert(s@ =~= base + spec_pk_cols(entity.primary_key@.take(k as int + 1)));
                }
                k = k + 1;
            }
            s.append(")");
            proof {
                assert(entity.primary_key@.take(entity.primary_key@.len() as int) =~= entity
                    .primary_key@);
            }
        }
        s.append("\n);\n");
        proof {
            assert(s@ =~= spec_create_table(*entity));
        }
        s
    }

    /// The `DROP TABLE` statement for one table.
    pub fn drop_table(&self, table: &str) -> (r: String)
        ensures
            r@ == spec_drop_table(table@),
    {
        let mut s = String::new();
        s.append("DROP TABLE \"");
        s.append(table);
        s.append("\";");
        proof {
            assert(s@ =~= spec_drop_table(table@));
        }
        s
    }

    /// The `ADD COLUMN` statement for one declared field.
    pub fn create_column(&self, table: &str, field: &FieldMeta) -> (r: String)
        ensures
            r@ == spec_create_column(table@, *field),
    {
        let mut s = String::new();
        s.append("ALTER TABLE \"");
        s.append(table);
        s.append("\" ADD COLUMN \"");
        s.append(field.name.as_str());
        s.append("\" ");
        s.append(Self::entity_type_to_column_type(field.ty));
        s.append(" ");
        let cons = Self::make_column_constraints(field);
        s.append(cons.as_str());
        s.append(";");
        proof {
            assert(s@ =~= spec_create_column(table@, *field));
        }
        s
    }

    /// The `DROP COLUMN` statement for one column.
    pub fn drop_column(&self, table: &str, field: &str) -> (r: String)
        ensures
            r@ == spec_drop_column(table@, field@),
    {
        let mut s = String::new();
        s.append("ALTER TABLE \"");
        s.append(table);
        s.append("\" DROP COLUMN \"");
        s.append(field);
        s.append("\";");
        proof {
            assert(s@ =~= spec_drop_column(table@, field@));
        }
        s
    }

    /// The `ALTER COLUMN ... TYPE` statement for one declared field.
    pub fn update_column(&self, table: &str, field: &FieldMeta) -> (r: String)
        ensures
            r@ == spec_update_column(table@, *field),
    {
        let mut s = String::new();
        s.append("ALTER TABLE \"");
        s.append(table);
        s.append("\" ALTER COLUMN \"");
        s.append(field.name.as_str());
        s.append("\" TYPE ");
        s.append(Self::entity_type_to_column_type(field.ty));
        s.append(";");
        proof {
            assert(s@ =~= spec_update_column(table@, *field));
        }
        s
    }

    /// The `ADD GENERATED ... AS IDENTITY` statement for one declared
    /// field that has an identity-generation mode.
    pub fn add_identity_generation(&self, table: &str, field: &FieldMeta) -> (r: String)
        requires
            field.identity_generation is Some,
        ensures
            r@ == spec_add_identity_generation(table@, *field),
    {
        let mut s = String::new();
        s.append("ALTER TABLE \"");
        s.append(table);
        s.append("\" ALTER COLUMN \"");
        s.append(field.name.as_str());
        s.append("\" ADD GENERATED ");
        match &field.identity_generation {
            Some(g) => s.append(Self::identity_generation(*g)),
            None => {},
        }
        s.append(" AS IDENTITY;");
        proof {
            assert(s@ =~= spec_add_identity_generation(table@, *field));
        }
        s
    }

    /// Compares the declared schema against the live one and renders the
    /// ordered forward batch and, when every change is reversible, the
    /// exact inverse batch. Dropped tables make the whole migration
    /// irreversible; removing identity generation is rejected.
    #[verifier::loop_isolation(false)]
    #[verifier::rlimit(60)]
    pub fn gen_migration(&self, live: &LiveSchema) -> (r: Result<
        (String, Option<String>),
        MigrationError,
    >)
        ensures
            r is Err <==> spec_diff_err(self.entities@, live.tables@),
            match r {
                Ok(pair) => {
                    &&& pair.0@ == render_script(spec_up_ops(self.entities@, live.tables@))
                    &&& (pair.1 is Some <==> !spec_has_dropped_table(self.entities@, live.tables@))
                    &&& (match pair.1 {
                        Some(d) => d@ == render_script(spec_down_ops(self.entities@, live.tables@)),
                        None => true,
                    })
                },
                Err(e) => match e {
                    MigrationError::IdentityGenerationRemoval { table, column } => spec_removal_at(
                        self.entities@,
                        live.tables@,
                        table@,
                        column@,
                    ),
                },
            },
    {
        let ghost schema_s = self.entities@;
        let ghost live_s = live.tables@;
        let mut up = String::new();
        let mut up_empty: bool = true;
        let ghost mut ups: Seq<DdlOp> = Seq::<DdlOp>::empty();
        let mut down = String::new();
        let mut down_empty: bool = true;
        let ghost mut downs: Seq<DdlOp> = Seq::<DdlOp>::empty();
        let mut reversible: bool = true;

        // Phase one: drop live tables that are no longer declared.
        let mut i: usize = 0;
        proof {
            assert(live_s.skip(0) =~= live_s);
        }
        while i < live.tables.len()
            invariant
                i <= live_s.len(),
                ups + spec_drop_tables(schema_s, live_s.skip(i as int)) == spec_drop_tables(
                    schema_s,
                    live_s,
                ),
                up@ == render_script(ups),
                up_empty == (ups.len() == 0),
                reversible == !(exists|k: int|
                    0 <= k < i && meta_find(schema_s, (#[trigger] live_s[k]).name@) is None),
            decreases live_s.len() - i,
        {
            proof {
                assert(live_s.skip(i as int).skip(1) =~= live_s.skip(i as int + 1));
                assert(live_s.skip(i as int)[0] == live_s[i as int]);
            }
            if find_meta(&self.entities, live.tables[i].name.as_str()).is_none() {
                let stmt = self.drop_table(live.tables[i].name.as_str());
                if !up_empty {
                    up.append("\n");
                }
                up.append(stmt.as_str());
                proof {
                    lemma_render_script_push(ups, DdlOp::DropTable(live_s[i as int].name));
                    ups = ups.push(DdlOp::DropTable(live_s[i as int].name));
                    assert(ups + spec_drop_tables(schema_s, live_s.skip(i as int + 1))
                        =~= spec_drop_tables(schema_s, live_s));
                }
                up_empty = false;
                reversible = false;
            }
            i = i + 1;
        }
        proof {
            assert(live_s.skip(live_s.len() as int) =~= Seq::<LiveTable>::empty());
            assert(ups + Seq::<DdlOp>::empty() =~= ups);
            assert(ups == spec_drop_tables(schema_s, live_s));
            assert(reversible == !spec_has_dropped_table(schema_s, live_s));
            assert(schema_s.skip(0) =~= schema_s);
        }

        // Phase two: create declared tables missing from the live set.
        let mut i2: usize = 0;
        while i2 < self.entities.len()
            invariant
                i2 <= schema_s.len(),
                ups + spec_create_tables(schema_s.skip(i2 as int), live_s) == spec_drop_tables(
                    schema_s,
                    live_s,
                ) + spec_create_tables(schema_s, live_s),
                up@ == render_script(ups),
                up_empty == (ups.len() == 0),
                reversible == !spec_has_dropped_table(schema_s, live_s),
                reversible ==> downs + spec_down_creates(schema_s.skip(i2 as int), live_s)
                    == spec_down_creates(schema_s, live_s),
                down@ == render_script(downs),
                down_empty == (downs.len() == 0),
                !reversible ==> downs == Seq::<DdlOp>::empty(),
            decreases schema_s.len() - i2,
        {
            proof {
                assert(schema_s.skip(i2 as int).skip(1) =~= schema_s.skip(i2 as int + 1));
                assert(schema_s.skip(i2 as int)[0] == schema_s[i2 as int]);
            }
            if find_table(&live.tables, self.entities[i2].table_name.as_str()).is_none() {
                let stmt = self.create_table(&self.entities[i2]);
                if !up_empty {
                    up.append("\n");
                }
                up.append(stmt.as_str());
                proof {
                    lemma_render_script_push(ups, DdlOp::CreateTable(schema_s[i2 as int]));
                    ups = ups.push(DdlOp::CreateTable(schema_s[i2 as int]));
                    assert(ups + spec_create_tables(schema_s.skip(i2 as int + 1), live_s)
                        =~= spec_drop_tables(schema_s, live_s) + spec_create_tables(
                        schema_s,
                        live_s,
                    ));
                }
                up_empty = false;
                if reversible {
                    let dstmt = self.drop_table(self.entities[i2].table_name.as_str());
                    if !down_empty {
                        down.append("\n");
                    }
                    down.append(dstmt.as_str());
                    proof {
                        lemma_render_script_push(
                            downs,
                            DdlOp::DropTable(schema_s[i2 as int].table_name),
                        );
                        downs = downs.push(DdlOp::DropTable(schema_s[i2 as int].table_name));
                        assert(downs + spec_down_creates(schema_s.skip(i2 as int + 1), live_s)
                            =~= spec_down_creates(schema_s, live_s));
                    }
                    down_empty = false;
                }
            }
            i2 = i2 + 1;
        }
        proof {
            assert(schema_s.skip(schema_s.len() as int) =~= Seq::<EntityMeta>::empty());
            assert(ups + Seq::<DdlOp>::empty() =~= ups);
            assert(downs + Seq::<DdlOp>::empty() =~= downs);
            assert(schema_s.skip(0) =~= schema_s);
            assert(spec_up_ops(schema_s, live_s) == (spec_drop_tables(schema_s, live_s)
                + spec_create_tables(schema_s, live_s)) + spec_alter_ops(schema_s, live_s));
        }

        // Phase three: align columns of tables present on both sides.
        let mut i3: usize = 0;
        while i3 < self.entities.len()
            invariant
                i3 <= schema_s.len(),
                ups + spec_alter_ops(schema_s.skip(i3 as int), live_s) == spec_up_ops(
                    schema_s,
                    live_s,
                ),
                up@ == render_script(ups),
                up_empty == (ups.len() == 0),
                reversible == !spec_has_dropped_table(schema_s, live_s),
                reversible ==> downs + spec_down_alters(schema_s.skip(i3 as int), live_s)
                    == spec_down_ops(schema_s, live_s),
                down@ == render_script(downs),
                down_empty == (downs.len() == 0),
                forall|k: int|
                    0 <= k < i3 ==> !(match table_find(
                        live_s,
                        (#[trigger] schema_s[k]).table_name@,
                    ) {
                        Some(lt) => spec_table_err(schema_s[k], lt),
                        None => false,
                    }),
            decreases schema_s.len() - i3,
        {
            proof {
                assert(schema_s.skip(i3 as int).skip(1) =~= schema_s.skip(i3 as int + 1));
                assert(schema_s.skip(i3 as int)[0] == schema_s[i3 as int]);
            }
            let t = &self.entities[i3];
            let ghost t_s = schema_s[i3 as int];
            match find_table(&live.tables, t.table_name.as_str()) {
                None => {
                    proof {
                        assert(ups + spec_alter_ops(schema_s.skip(i3 as int + 1), live_s)
                            =~= spec_up_ops(schema_s, live_s));
                        if reversible {
                            assert(downs + spec_down_alters(schema_s.skip(i3 as int + 1), live_s)
                                =~= spec_down_ops(schema_s, live_s));
                        }
                    }
                },
                Some(lt) => {
                    let ghost lt_s = *lt;
                    let ghost cols_s = lt_s.columns@;

                    // Drop live columns that are no longer declared.
                    let mut j: usize = 0;
                    let ghost ups_a = ups;
                    proof {
                        assert(cols_s.skip(0) =~= cols_s);
                    }
                    while j < lt.columns.len()
                        invariant
                            j <= cols_s.len(),
                            ups + spec_drop_columns(t_s, cols_s.skip(j as int)) == ups_a
                                + spec_drop_columns(t_s, cols_s),
                            up@ == render_script(ups),
                            up_empty == (ups.len() == 0),
                        decreases cols_s.len() - j,
                    {
                        proof {
                            assert(cols_s.skip(j as int).skip(1) =~= cols_s.skip(j as int + 1));
                            assert(cols_s.skip(j as int)[0] == cols_s[j as int]);
                        }
                        if !t.find_field(lt.columns[j].name.as_str()) {
                            let stmt = self.drop_column(
                                t.table_name.as_str(),
                                lt.columns[j].name.as_str(),
                            );
                            if !up_empty {
                                up.append("\n");
                            }
                            up.append(stmt.as_str());
                            proof {
                                lemma_render_script_push(
                                    ups,
                                    DdlOp::DropColumn(t_s.table_name, cols_s[j as int].name),
                                );
                                ups = ups.push(
                                    DdlOp::DropColumn(t_s.table_name, cols_s[j as int].name),
                                );
                                assert(ups + spec_drop_columns(t_s, cols_s.skip(j as int + 1))
                                    =~= ups_a + spec_drop_columns(t_s, cols_s));
                            }
                            up_empty = false;
                        }
                        j = j + 1;
                    }
                    proof {
                        assert(cols_s.skip(cols_s.len() as int) =~= Seq::<LiveColumn>::empty());
                        assert(ups + Seq::<DdlOp>::empty() =~= ups);
                        assert(ups == ups_a + spec_drop_columns(t_s, cols_s));
                        assert(t_s.fields@.skip(0) =~= t_s.fields@);
                    }

                    // Align each declared field with the live column set.
                    let mut j2: usize = 0;
                    let ghost ups_b = ups;
                    let ghost downs_b = downs;
                    while j2 < t.fields.len()
                        invariant
                            j2 <= t_s.fields@.len(),
                            ups + spec_fields_ops(t_s.table_name, t_s.fields@.skip(j2 as int), cols_s)
                                == ups_b + spec_fields_ops(t_s.table_name, t_s.fields@, cols_s),
                            up@ == render_script(ups),
                            up_empty == (ups.len() == 0),
                            reversible ==> downs + spec_down_fields(
                                t_s.table_name,
                                t_s.fields@.skip(j2 as int),
                                cols_s,
                            ) == downs_b + spec_down_fields(t_s.table_name, t_s.fields@, cols_s),
                            down@ == render_script(downs),
                            down_empty == (downs.len() == 0),
                            forall|k: int|
                                0 <= k < j2 ==> !spec_field_err(
                                    #[trigger] t_s.fields@[k],
                                    cols_s,
                                ),
                        decreases t_s.fields@.len() - j2,
                    {
                        proof {
                            assert(t_s.fields@.skip(j2 as int).skip(1) =~= t_s.fields@.skip(
                                j2 as int + 1,
                            ));
                            assert(t_s.fields@.skip(j2 as int)[0] == t_s.fields@[j2 as int]);
                        }
                        let f = &t.fields[j2];
                        let ghost f_s = t_s.fields@[j2 as int];
                        match find_column(&lt.columns, f.name.as_str()) {
                            None => {
                                let stmt = self.create_column(t.table_name.as_str(), f);
                                if !up_empty {
                                    up.append("\n");
                                }
                                up.append(stmt.as_str());
                                proof {
                                    lemma_render_script_push(
                                        ups,
                                        DdlOp::AddColumn(t_s.table_name, f_s),
                                    );
                                    ups = ups.push(DdlOp::AddColumn(t_s.table_name, f_s));
                                    assert(spec_field_ops(t_s.table_name, f_s, cols_s)
                                        =~= seq![DdlOp::AddColumn(t_s.table_name, f_s)]);
                                    assert(ups + spec_fields_ops(
                                        t_s.table_name,
                                        t_s.fields@.skip(j2 as int + 1),
                                        cols_s,
                                    ) =~= ups_b + spec_fields_ops(
                                        t_s.table_name,
                                        t_s.fields@,
                                        cols_s,
                                    ));
                                }
                                up_empty = false;
                                if reversible {
                                    let dstmt = self.drop_column(
                                        t.table_name.as_str(),
                                        f.name.as_str(),
                                    );
                                    if !down_empty {
                                        down.append("\n");
                                    }
                                    down.append(dstmt.as_str());
                                    proof {
                                        lemma_render_script_push(
                                            downs,
                                            DdlOp::DropColumn(t_s.table_name, f_s.name),
                                        );
                                        downs = downs.push(
                                            DdlOp::DropColumn(t_s.table_name, f_s.name),
                                        );
                                        assert(downs + spec_down_fields(
                                            t_s.table_name,
                                            t_s.fields@.skip(j2 as int + 1),
                                            cols_s,
                                        ) =~= downs_b + spec_down_fields(
                                            t_s.table_name,
                                            t_s.fields@,
                                            cols_s,
                                        ));
                                    }
                                    down_empty = false;
                                }
                            },
                            Some(c) => {
                                let ghost c_s = *c;
                                if !crate::text::str_eq(
                                    c.ty.as_str(),
                                    Self::entity_type_to_column_type(f.ty),
                                ) {
                                    let stmt = self.update_column(t.table_name.as_str(), f);
                                    if !up_empty {
                                        up.append("\n");
                                    }
                                    up.append(stmt.as_str());
                                    proof {
                                        lemma_render_script_push(
                                            ups,
                                            DdlOp::AlterColumnType(t_s.table_name, f_s),
                                        );
                                        ups = ups.push(
                                            DdlOp::AlterColumnType(t_s.table_name, f_s),
                                        );
                                    }
                                    up_empty = false;
                                }
                                if !ident_eq(c.identity_generation, f.identity_generation) {
                                    if f.identity_generation.is_some() {
                                        let stmt = self.add_identity_generation(
                                            t.table_name.as_str(),
                                            f,
                                        );
                                        if !up_empty {
                                            up.append("\n");
                                        }
                                        up.append(stmt.as_str());
                                        proof {
                                            lemma_render_script_push(
                                                ups,
                                                DdlOp::AddIdentity(t_s.table_name, f_s),
                                            );
                                            ups = ups.push(
                                                DdlOp::AddIdentity(t_s.table_name, f_s),
                                            );
                                        }
                                        up_empty = false;
                                    } else {
                                        proof {
                                            assert(spec_field_err(f_s, cols_s));
                                            assert(spec_table_err(t_s, lt_s));
                                            assert(spec_diff_err(schema_s, live_s));
                                            assert(spec_removal_at(
                                                schema_s,
                                                live_s,
                                                t_s.table_name@,
                                                f_s.name@,
                                            ));
                                        }
                                        return Err(
                                            MigrationError::IdentityGenerationRemoval {
                                                table: t.table_name.clone(),
                                                column: f.name.clone(),
                                            },
                                        );
                                    }
                                }
                                proof {
                                    assert(ups + spec_fields_ops(
                                        t_s.table_name,
                                        t_s.fields@.skip(j2 as int + 1),
                                        cols_s,
                                    ) =~= ups_b + spec_fields_ops(
                                        t_s.table_name,
                                        t_s.fields@,
                                        cols_s,
                                    ));
                                    if reversible {
                                        assert(downs + spec_down_fields(
                                            t_s.table_name,
                                            t_s.fields@.skip(j2 as int + 1),
                                            cols_s,
                                        ) =~= downs_b + spec_down_fields(
                                            t_s.table_name,
                                            t_s.fields@,
                                            cols_s,
                                        ));
                                    }
                                }
                            },
                        }
                        j2 = j2 + 1;
                    }
                    proof {
                        assert(t_s.fields@.skip(t_s.fields@.len() as int) =~= Seq::<
                            FieldMeta,
                        >::empty());
                        assert(ups + Seq::<DdlOp>::empty() =~= ups);
                        assert(downs + Seq::<DdlOp>::empty() =~= downs);
                        assert(ups == (ups_a + spec_drop_columns(t_s, cols_s)) + spec_fields_ops(
                            t_s.table_name,
                            t_s.fields@,
                            cols_s,
                        ));
                        assert(ups =~= ups_a + spec_table_ops(t_s, lt_s));
                        assert(ups + spec_alter_ops(schema_s.skip(i3 as int + 1), live_s)
                            =~= spec_up_ops(schema_s, live_s));
                        if reversible {
                            assert(downs + spec_down_alters(schema_s.skip(i3 as int + 1), live_s)
                                =~= spec_down_ops(schema_s, live_s));
                        }
                    }
                },
            }
            i3 = i3 + 1;
        }
        proof {
            assert(schema_s.skip(schema_s.len() as int) =~= Seq::<EntityMeta>::empty());
            assert(ups + Seq::<DdlOp>::empty() =~= ups);
            assert(downs + Seq::<DdlOp>::empty() =~= downs);
            assert(ups == spec_up_ops(schema_s, live_s));
            assert(!spec_diff_err(schema_s, live_s));
        }
        if reversible {
            Ok((up, Some(down)))
        } else {
            Ok((up, None))
        }
    }
}

/// Equality of two optional identity-generation modes.
pub fn ident_eq(a: Option<IdentityGeneration>, b: Option<IdentityGeneration>) -> (r: bool)
    ensures
        r == (a == b),
{
    match (a, b) {
        (None, None) => true,
        (Some(x), Some(y)) => x == y,
        _ => false,
    }
}

/// One schema-changing statement of a migration, in the abstract: the
/// rendered scripts are characterized as the joined renderings of these.
pub enum DdlOp {
    CreateTable(EntityMeta),
    DropTable(String),
    AddColumn(String, FieldMeta),
    DropColumn(String, String),
    AlterColumnType(String, FieldMeta),
    AddIdentity(String, FieldMeta),
}

/// The statement text of one abstract operation.
pub open spec fn spec_render(op: DdlOp) -> Seq<char> {
    match op {
        DdlOp::CreateTable(m) => spec_create_table(m),
        DdlOp::DropTable(t) => spec_drop_table(t@),
        DdlOp::AddColumn(t, f) => spec_create_column(t@, f),
        DdlOp::DropColumn(t, c) => spec_drop_column(t@, c@),
        DdlOp::AlterColumnType(t, f) => spec_update_column(t@, f),
        DdlOp::AddIdentity(t, f) => spec_add_identity_generation(t@, f),
    }
}

/// A statement batch: the rendered operations joined with newlines.
pub open spec fn render_script(ops: Seq<DdlOp>) -> Seq<char>
    decreases ops.len(),
{
    if ops.len() == 0 {
        Seq::<char>::empty()
    } else if ops.len() == 1 {
        spec_render(ops[0])
    } else {
        spec_render(ops[0]) + "\n"@ + render_script(ops.skip(1))
    }
}

proof fn lemma_render_script_push(ops: Seq<DdlOp>, op: DdlOp)
    ensures
        render_script(ops.push(op)) == if ops.len() == 0 {
            spec_render(op)
        } else {
            render_script(ops) + "\n"@ + spec_render(op)
        },
    decreases ops.len(),
{
    if ops.len() == 0 {
        assert(ops.push(op) =~= seq![op]);
    } else {
        lemma_render_script_push(ops.skip(1), op);
        assert(ops.push(op).skip(1) =~= ops.skip(1).push(op));
        assert(render_script(ops.push(op)) =~= render_script(ops) + "\n"@ + spec_render(op));
    }
}

/// Phase one of the diff: every live table absent from the declared set is
/// dropped.
pub open spec fn spec_drop_tables(schema: Seq<EntityMeta>, live: Seq<LiveTable>) -> Seq<DdlOp>
    decreases live.len(),
{
    if live.len() == 0 {
        Seq::<DdlOp>::empty()
    } else {
        (if meta_find(schema, live[0].name@) is None {
            seq![DdlOp::DropTable(live[0].name)]
        } else {
            Seq::<DdlOp>::empty()
        }) + spec_drop_tables(schema, live.skip(1))
    }
}

/// Phase two of the diff: every declared table absent from the live set is
/// created in full.
pub open spec fn spec_create_tables(schema: Seq<EntityMeta>, live: Seq<LiveTable>) -> Seq<DdlOp>
    decreases schema.len(),
{
    if schema.len() == 0 {
        Seq::<DdlOp>::empty()
    } else {
        (if table_find(live, schema[0].table_name@) is None {
            seq![DdlOp::CreateTable(schema[0])]
        } else {
            Seq::<DdlOp>::empty()
        }) + spec_create_tables(schema.skip(1), live)
    }
}

/// Phase three, per declared field: add it if missing, else align the type
/// and add identity generation where the declared mode differs. Removing
/// identity generation has no operation: it is the rejected case.
pub open spec fn spec_field_ops(table: String, f: FieldMeta, cols: Seq<LiveColumn>) -> Seq<DdlOp> {
    match column_find(cols, f.name@) {
        None => seq![DdlOp::AddColumn(table, f)],
        Some(c) => (if c.ty@ != spec_column_type(f.ty) {
            seq![DdlOp::AlterColumnType(table, f)]
        } else {
            Seq::<DdlOp>::empty()
        }) + (if c.identity_generation != f.identity_generation && f.identity_generation is Some {
            seq![DdlOp::AddIdentity(table, f)]
        } else {
            Seq::<DdlOp>::empty()
        }),
    }
}

pub open spec fn spec_fields_ops(table: String, fields: Seq<FieldMeta>, cols: Seq<LiveColumn>) -> Seq<
    DdlOp,
>
    decreases fields.len(),
{
    if fields.len() == 0 {
        Seq::<DdlOp>::empty()
    } else {
        spec_field_ops(table, fields[0], cols) + spec_fields_ops(table, fields.skip(1), cols)
    }
}

/// Phase three, per live column: columns no longer declared are dropped.
pub open spec fn spec_drop_columns(m: EntityMeta, cols: Seq<LiveColumn>) -> Seq<DdlOp>
    decreases cols.len(),
{
    if cols.len() == 0 {
        Seq::<DdlOp>::empty()
    } else {
        (if m.has_field(cols[0].name@) {
            Seq::<DdlOp>::empty()
        } else {
            seq![DdlOp::DropColumn(m.table_name, cols[0].name)]
        }) + spec_drop_columns(m, cols.skip(1))
    }
}

/// Phase three for one table present on both sides: drop undeclared
/// columns, then align each declared field.
pub open spec fn spec_table_ops(m: EntityMeta, lt: LiveTable) -> Seq<DdlOp> {
    spec_drop_columns(m, lt.columns@) + spec_fields_ops(m.table_name, m.fields@, lt.columns@)
}

pub open spec fn spec_alter_ops(schema: Seq<EntityMeta>, live: Seq<LiveTable>) -> Seq<DdlOp>
    decreases schema.len(),
{
    if schema.len() == 0 {
        Seq::<DdlOp>::empty()
    } else {
        (match table_find(live, schema[0].table_name@) {
            Some(lt) => spec_table_ops(schema[0], lt),
            None => Seq::<DdlOp>::empty(),
        }) + spec_alter_ops(schema.skip(1), live)
    }
}

/// The whole forward batch, in phase order.
pub open spec fn spec_up_ops(schema: Seq<EntityMeta>, live: Seq<LiveTable>) -> Seq<DdlOp> {
    spec_drop_tables(schema, live) + spec_create_tables(schema, live) + spec_alter_ops(
        schema,
        live,
    )
}

/// The inverse of phase two: each created table is dropped again.
pub open spec fn spec_down_creates(schema: Seq<EntityMeta>, live: Seq<LiveTable>) -> Seq<DdlOp>
    decreases schema.len(),
{
    if schema.len() == 0 {
        Seq::<DdlOp>::empty()
    } else {
        (if table_find(live, schema[0].table_name@) is None {
            seq![DdlOp::DropTable(schema[0].table_name)]
        } else {
            Seq::<DdlOp>::empty()
        }) + spec_down_creates(schema.skip(1), live)
    }
}

/// The inverse of the added columns: each is dropped again. Type changes
/// and identity additions get no inverse.
pub open spec fn spec_down_fields(table: String, fields: Seq<FieldMeta>, cols: Seq<LiveColumn>) -> Seq<
    DdlOp,
>
    decreases fields.len(),
{
    if fields.len() == 0 {
        Seq::<DdlOp>::empty()
    } else {
        (match column_find(cols, fields[0].name@) {
            None => seq![DdlOp::DropColumn(table, fields[0].name)],
            Some(c) => Seq::<DdlOp>::empty(),
        }) + spec_down_fields(table, fields.skip(1), cols)
    }
}

pub open spec fn spec_down_alters(schema: Seq<EntityMeta>, live: Seq<LiveTable>) -> Seq<DdlOp>
    decreases schema.len(),
{
    if schema.len() == 0 {
        Seq::<DdlOp>::empty()
    } else {
        (match table_find(live, schema[0].table_name@) {
            Some(lt) => spec_down_fields(schema[0].table_name, schema[0].fields@, lt.columns@),
            None => Seq::<DdlOp>::empty(),
        }) + spec_down_alters(schema.skip(1), live)
    }
}

/// The whole reverse batch, tracked only while no table is dropped.
pub open spec fn spec_down_ops(schema: Seq<EntityMeta>, live: Seq<LiveTable>) -> Seq<DdlOp> {
    spec_down_creates(schema, live) + spec_down_alters(schema, live)
}

/// Whether the diff drops any table, which makes the whole migration
/// irreversible.
pub open spec fn spec_has_dropped_table(schema: Seq<EntityMeta>, live: Seq<LiveTable>) -> bool {
    exists|i: int| 0 <= i < live.len() && meta_find(schema, (#[trigger] live[i]).name@) is None
}

/// The rejected case: a column is declared without identity generation
/// while the live column has it.
pub open spec fn spec_field_err(f: FieldMeta, cols: Seq<LiveColumn>) -> bool {
    match column_find(cols, f.name@) {
        Some(c) => c.identity_generation != f.identity_generation && f.identity_generation is None,
        None => false,
    }
}

pub open spec fn spec_table_err(m: EntityMeta, lt: LiveTable) -> bool {
    exists|j: int| 0 <= j < m.fields@.len() && spec_field_err(#[trigger] m.fields@[j], lt.columns@)
}

pub open spec fn spec_diff_err(schema: Seq<EntityMeta>, live: Seq<LiveTable>) -> bool {
    exists|i: int|
        0 <= i < schema.len() && (match table_find(live, (#[trigger] schema[i]).table_name@) {
            Some(lt) => spec_table_err(schema[i], lt),
            None => false,
        })
}

/// The named violation behind an `IdentityGenerationRemoval` error.
pub open spec fn spec_removal_at(
    schema: Seq<EntityMeta>,
    live: Seq<LiveTable>,
    table: Seq<char>,
    column: Seq<char>,
) -> bool {
    exists|i: int, j: int|
        0 <= i < schema.len() && 0 <= j < (#[trigger] schema[i]).fields@.len()
            && schema[i].table_name@ == table && (#[trigger] schema[i].fields@[j]).name@ == column
            && (match table_find(live, table) {
            Some(lt) => spec_field_err(schema[i].fields@[j], lt.columns@),
            None => false,
        })
}

/// A schema change the differ refuses to express.
#[derive(Debug)]
pub enum MigrationError {
    /// Removing identity generation from a live column is unsupported:
    /// failing fast is preferred over emitting incorrect statements.
    IdentityGenerationRemoval { table: String, column: String },
}

/// One declared field realized by the live column set: present, of the
/// declared dialect type, with the declared identity-generation mode.
pub open spec fn field_matches(f: FieldMeta, cols: Seq<LiveColumn>) -> bool {
    match column_find(cols, f.name@) {
        Some(c) => c.ty@ == spec_column_type(f.ty) && c.identity_generation
            == f.identity_generation,
        None => false,
    }
}

/// One declared table realized by a live table: no extra live column,
/// and every declared field realized.
pub open spec fn table_matches(m: EntityMeta, lt: LiveTable) -> bool {
    &&& (forall|j: int|
        0 <= j < lt.columns@.len() ==> m.has_field((#[trigger] lt.columns@[j]).name@))
    &&& (forall|j: int| 0 <= j < m.fields@.len() ==> field_matches(#[trigger] m.fields@[j], lt.columns@))
}

/// The live schema realizes the declared one exactly: no undeclared live
/// table, and each declared table realized.
pub open spec fn no_drift(schema: Seq<EntityMeta>, live: Seq<LiveTable>) -> bool {
    &&& (forall|i: int|
        0 <= i < live.len() ==> meta_find(schema, (#[trigger] live[i]).name@) is Some)
    &&& (forall|i: int|
        0 <= i < schema.len() ==> (match table_find(live, (#[trigger] schema[i]).table_name@) {
            Some(lt) => table_matches(schema[i], lt),
            None => false,
        }))
}

proof fn lemma_drop_tables_empty(schema: Seq<EntityMeta>, live: Seq<LiveTable>)
    requires
        forall|i: int| 0 <= i < live.len() ==> meta_find(schema, (#[trigger] live[i]).name@) is Some,
    ensures
        spec_drop_tables(schema, live) == Seq::<DdlOp>::empty(),
    decreases live.len(),
{
    if live.len() == 0 {
    } else {
        assert forall|i: int|
            0 <= i < live.skip(1).len() implies meta_find(
            schema,
            (#[trigger] live.skip(1)[i]).name@,
        ) is Some by {
            assert(live.skip(1)[i] == live[i + 1]);
        }
        lemma_drop_tables_empty(schema, live.skip(1));
        assert(spec_drop_tables(schema, live) =~= Seq::<DdlOp>::empty());
    }
}

proof fn lemma_create_tables_empty(schema: Seq<EntityMeta>, live: Seq<LiveTable>)
    requires
        forall|i: int|
            0 <= i < schema.len() ==> table_find(live, (#[trigger] schema[i]).table_name@) is Some,
    ensures
        spec_create_tables(schema, live) == Seq::<DdlOp>::empty(),
    decreases schema.len(),
{
    if schema.len() == 0 {
    } else {
        assert forall|i: int|
            0 <= i < schema.skip(1).len() implies table_find(
            live,
            (#[trigger] schema.skip(1)[i]).table_name@,
        ) is Some by {
            assert(schema.skip(1)[i] == schema[i + 1]);
        }
        lemma_create_tables_empty(schema.skip(1), live);
        assert(spec_create_tables(schema, live) =~= Seq::<DdlOp>::empty());
    }
}

proof fn lemma_drop_columns_empty(m: EntityMeta, cols: Seq<LiveColumn>)
    requires
        forall|j: int| 0 <= j < cols.len() ==> m.has_field((#[trigger] cols[j]).name@),
    ensures
        spec_drop_columns(m, cols) == Seq::<DdlOp>::empty(),
    decreases cols.len(),
{
    if cols.len() == 0 {
    } else {
        assert forall|j: int|
            0 <= j < cols.skip(1).len() implies m.has_field((#[trigger] cols.skip(1)[j]).name@) by {
            assert(cols.skip(1)[j] == cols[j + 1]);
        }
        lemma_drop_columns_empty(m, cols.skip(1));
        assert(spec_drop_columns(m, cols) =~= Seq::<DdlOp>::empty());
    }
}

proof fn lemma_fields_ops_empty(table: String, fields: Seq<FieldMeta>, cols: Seq<LiveColumn>)
    requires
        forall|j: int| 0 <= j < fields.len() ==> field_matches(#[trigger] fields[j], cols),
    ensures
        spec_fields_ops(table, fields, cols) == Seq::<DdlOp>::empty(),
        spec_down_fields(table, fields, cols) == Seq::<DdlOp>::empty(),
    decreases fields.len(),
{
    if fields.len() == 0 {
    } else {
        assert forall|j: int|
            0 <= j < fields.skip(1).len() implies field_matches(
            #[trigger] fields.skip(1)[j],
            cols,
        ) by {
            assert(fields.skip(1)[j] == fields[j + 1]);
        }
        lemma_fields_ops_empty(table, fields.skip(1), cols);
        assert(field_matches(fields[0], cols));
        assert(spec_field_ops(table, fields[0], cols) =~= Seq::<DdlOp>::empty());
        assert(spec_fields_ops(table, fields, cols) =~= Seq::<DdlOp>::empty());
        assert(spec_down_fields(table, fields, cols) =~= Seq::<DdlOp>::empty());
    }
}

proof fn lemma_alter_ops_empty(schema: Seq<EntityMeta>, live: Seq<LiveTable>)
    requires
        forall|i: int|
            0 <= i < schema.len() ==> (match table_find(live, (#[trigger] schema[i]).table_name@) {
                Some(lt) => table_matches(schema[i], lt),
                None => true,
            }),
    ensures
        spec_alter_ops(schema, live) == Seq::<DdlOp>::empty(),
        spec_down_alters(schema, live) == Seq::<DdlOp>::empty(),
    decreases schema.len(),
{
    if schema.len() == 0 {
    } else {
        assert forall|i: int|
            0 <= i < schema.skip(1).len() implies (match table_find(
            live,
            (#[trigger] schema.skip(1)[i]).table_name@,
        ) {
            Some(lt) => table_matches(schema.skip(1)[i], lt),
            None => true,
        }) by {
            assert(schema.skip(1)[i] == schema[i + 1]);
        }
        lemma_alter_ops_empty(schema.skip(1), live);
        match table_find(live, schema[0].table_name@) {
            Some(lt) => {
                lemma_drop_columns_empty(schema[0], lt.columns@);
                lemma_fields_ops_empty(schema[0].table_name, schema[0].fields@, lt.columns@);
            },
            None => {},
        }
        assert(spec_alter_ops(schema, live) =~= Seq::<DdlOp>::empty());
        assert(spec_down_alters(schema, live) =~= Seq::<DdlOp>::empty());
    }
}

/// Idempotence of the diff: once the live schema realizes the declared
/// one — which is what applying a generated forward batch leaves behind —
/// diffing again yields an empty batch, with nothing to reverse and
/// nothing to reject.
pub proof fn lemma_no_drift_diff_empty(schema: Seq<EntityMeta>, live: Seq<LiveTable>)
    requires
        no_drift(schema, live),
    ensures
        spec_up_ops(schema, live) == Seq::<DdlOp>::empty(),
        spec_down_ops(schema, live) == Seq::<DdlOp>::empty(),
        !spec_diff_err(schema, live),
        !spec_has_dropped_table(schema, live),
{
    lemma_drop_tables_empty(schema, live);
    lemma_create_tables_empty(schema, live);
    assert forall|i: int|
        0 <= i < schema.len() implies (match table_find(
        live,
        (#[trigger] schema[i]).table_name@,
    ) {
        Some(lt) => table_matches(schema[i], lt),
        None => true,
    }) by {}
    lemma_alter_ops_empty(schema, live);
    assert forall|i: int|
        0 <= i < schema.len() implies table_find(live, (#[trigger] schema[i]).table_name@)
        is Some by {}
    lemma_down_creates_of_creates(schema, live);
    assert(spec_create_tables(schema, live).map_values(|op: DdlOp| reciprocal_drop(op)) =~= Seq::<
        DdlOp,
    >::empty());
    assert(spec_up_ops(schema, live) =~= Seq::<DdlOp>::empty());
    assert(spec_down_ops(schema, live) =~= Seq::<DdlOp>::empty());
    assert forall|i: int|
        0 <= i < schema.len() implies !(match table_find(
        live,
        (#[trigger] schema[i]).table_name@,
    ) {
        Some(lt) => spec_table_err(schema[i], lt),
        None => false,
    }) by {
        match table_find(live, schema[i].table_name@) {
            Some(lt) => {
                if spec_table_err(schema[i], lt) {
                    let j = choose|j: int|
                        0 <= j < schema[i].fields@.len() && spec_field_err(
                            #[trigger] schema[i].fields@[j],
                            lt.columns@,
                        );
                    assert(field_matches(schema[i].fields@[j], lt.columns@));
                }
            },
            None => {},
        }
    }
}

proof fn lemma_drop_tables_complete(schema: Seq<EntityMeta>, live: Seq<LiveTable>)
    requires
        spec_drop_tables(schema, live) == Seq::<DdlOp>::empty(),
    ensures
        forall|i: int| 0 <= i < live.len() ==> meta_find(schema, (#[trigger] live[i]).name@) is Some,
    decreases live.len(),
{
    if live.len() == 0 {
    } else {
        assert(spec_drop_tables(schema, live.skip(1)).len() == 0);
        assert(spec_drop_tables(schema, live.skip(1)) =~= Seq::<DdlOp>::empty());
        lemma_drop_tables_complete(schema, live.skip(1));
        assert(meta_find(schema, live[0].name@) is Some);
        assert forall|i: int|
            0 <= i < live.len() implies meta_find(schema, (#[trigger] live[i]).name@) is Some by {
            if i > 0 {
                assert(live.skip(1)[i - 1] == live[i]);
            }
        }
    }
}

proof fn lemma_create_tables_complete(schema: Seq<EntityMeta>, live: Seq<LiveTable>)
    requires
        spec_create_tables(schema, live) == Seq::<DdlOp>::empty(),
    ensures
        forall|i: int|
            0 <= i < schema.len() ==> table_find(live, (#[trigger] schema[i]).table_name@) is Some,
    decreases schema.len(),
{
    if schema.len() == 0 {
    } else {
        assert(spec_create_tables(schema.skip(1), live).len() == 0);
        assert(spec_create_tables(schema.skip(1), live) =~= Seq::<DdlOp>::empty());
        lemma_create_tables_complete(schema.skip(1), live);
        assert(table_find(live, schema[0].table_name@) is Some);
        assert forall|i: int|
            0 <= i < schema.len() implies table_find(
            live,
            (#[trigger] schema[i]).table_name@,
        ) is Some by {
            if i > 0 {
                assert(schema.skip(1)[i - 1] == schema[i]);
            }
        }
    }
}

proof fn lemma_drop_columns_complete(m: EntityMeta, cols: Seq<LiveColumn>)
    requires
        spec_drop_columns(m, cols) == Seq::<DdlOp>::empty(),
    ensures
        forall|j: int| 0 <= j < cols.len() ==> m.has_field((#[trigger] cols[j]).name@),
    decreases cols.len(),
{
    if cols.len() == 0 {
    } else {
        assert(spec_drop_columns(m, cols.skip(1)).len() == 0);
        assert(spec_drop_columns(m, cols.skip(1)) =~= Seq::<DdlOp>::empty());
        lemma_drop_columns_complete(m, cols.skip(1));
        assert(m.has_field(cols[0].name@));
        assert forall|j: int|
            0 <= j < cols.len() implies m.has_field((#[trigger] cols[j]).name@) by {
            if j > 0 {
                assert(cols.skip(1)[j - 1] == cols[j]);
            }
        }
    }
}

proof fn lemma_fields_ops_complete(table: String, fields: Seq<FieldMeta>, cols: Seq<LiveColumn>)
    requires
        spec_fields_ops(table, fields, cols) == Seq::<DdlOp>::empty(),
        forall|j: int| 0 <= j < fields.len() ==> !spec_field_err(#[trigger] fields[j], cols),
    ensures
        forall|j: int| 0 <= j < fields.len() ==> field_matches(#[trigger] fields[j], cols),
    decreases fields.len(),
{
    if fields.len() == 0 {
    } else {
        assert(spec_fields_ops(table, fields.skip(1), cols).len() == 0);
        assert(spec_fields_ops(table, fields.skip(1), cols) =~= Seq::<DdlOp>::empty());
        assert forall|j: int|
            0 <= j < fields.skip(1).len() implies !spec_field_err(
            #[trigger] fields.skip(1)[j],
            cols,
        ) by {
            assert(fields.skip(1)[j] == fields[j + 1]);
        }
        lemma_fields_ops_complete(table, fields.skip(1), cols);
        assert(spec_field_ops(table, fields[0], cols).len() == 0);
        assert(field_matches(fields[0], cols)) by {
            match column_find(cols, fields[0].name@) {
                Some(c) => {
                    assert(!spec_field_err(fields[0], cols));
                },
                None => {
                    assert(spec_field_ops(table, fields[0], cols).len() == 1);
                },
            }
        }
        assert forall|j: int|
            0 <= j < fields.len() implies field_matches(#[trigger] fields[j], cols) by {
            if j > 0 {
                assert(fields.skip(1)[j - 1] == fields[j]);
            }
        }
    }
}

proof fn lemma_alter_ops_complete(schema: Seq<EntityMeta>, live: Seq<LiveTable>)
    requires
        spec_alter_ops(schema, live) == Seq::<DdlOp>::empty(),
        forall|i: int|
            0 <= i < schema.len() ==> !(match table_find(live, (#[trigger] schema[i]).table_name@) {
                Some(lt) => spec_table_err(schema[i], lt),
                None => false,
            }),
    ensures
        forall|i: int|
            0 <= i < schema.len() ==> (match table_find(live, (#[trigger] schema[i]).table_name@) {
                Some(lt) => table_matches(schema[i], lt),
                None => true,
            }),
    decreases schema.len(),
{
    if schema.len() == 0 {
    } else {
        assert(spec_alter_ops(schema.skip(1), live).len() == 0);
        assert(spec_alter_ops(schema.skip(1), live) =~= Seq::<DdlOp>::empty());
        assert forall|i: int|
            0 <= i < schema.skip(1).len() implies !(match table_find(
            live,
            (#[trigger] schema.skip(1)[i]).table_name@,
        ) {
            Some(lt) => spec_table_err(schema.skip(1)[i], lt),
            None => false,
        }) by {
            assert(schema.skip(1)[i] == schema[i + 1]);
        }
        lemma_alter_ops_complete(schema.skip(1), live);
        match table_find(live, schema[0].table_name@) {
            Some(lt) => {
                assert(spec_table_ops(schema[0], lt).len() == 0);
                assert(spec_drop_columns(schema[0], lt.columns@) =~= Seq::<DdlOp>::empty());
                assert(spec_fields_ops(schema[0].table_name, schema[0].fields@, lt.columns@)
                    =~= Seq::<DdlOp>::empty());
                lemma_drop_columns_complete(schema[0], lt.columns@);
                assert forall|j: int|
                    0 <= j < schema[0].fields@.len() implies !spec_field_err(
                    #[trigger] schema[0].fields@[j],
                    lt.columns@,
                ) by {
                    assert(!spec_table_err(schema[0], lt));
                }
                lemma_fields_ops_complete(schema[0].table_name, schema[0].fields@, lt.columns@);
                assert(table_matches(schema[0], lt));
            },
            None => {},
        }
        assert forall|i: int|
            0 <= i < schema.len() implies (match table_find(
            live,
            (#[trigger] schema[i]).table_name@,
        ) {
            Some(lt) => table_matches(schema[i], lt),
            None => true,
        }) by {
            if i > 0 {
                assert(schema.skip(1)[i - 1] == schema[i]);
            }
        }
    }
}

/// Idempotence, both ways: when the diff is not rejected, the forward
/// batch is empty exactly when the live schema realizes the declared
/// one. With `lemma_no_drift_diff_empty`, diffing right after the
/// forward batch converged the database reports no drift.
pub proof fn lemma_diff_empty_iff_no_drift(schema: Seq<EntityMeta>, live: Seq<LiveTable>)
    requires
        !spec_diff_err(schema, live),
    ensures
        (spec_up_ops(schema, live) == Seq::<DdlOp>::empty()) == no_drift(schema, live),
{
    if spec_up_ops(schema, live) == Seq::<DdlOp>::empty() {
        assert(spec_drop_tables(schema, live).len() == 0);
        assert(spec_drop_tables(schema, live) =~= Seq::<DdlOp>::empty());
        assert(spec_create_tables(schema, live).len() == 0);
        assert(spec_create_tables(schema, live) =~= Seq::<DdlOp>::empty());
        assert(spec_alter_ops(schema, live).len() == 0);
        assert(spec_alter_ops(schema, live) =~= Seq::<DdlOp>::empty());
        lemma_drop_tables_complete(schema, live);
        lemma_create_tables_complete(schema, live);
        assert forall|i: int|
            0 <= i < schema.len() implies !(match table_find(
            live,
            (#[trigger] schema[i]).table_name@,
        ) {
            Some(lt) => spec_table_err(schema[i], lt),
            None => false,
        }) by {}
        lemma_alter_ops_complete(schema, live);
        assert forall|i: int|
            0 <= i < schema.len() implies (match table_find(
            live,
            (#[trigger] schema[i]).table_name@,
        ) {
            Some(lt) => table_matches(schema[i], lt),
            None => false,
        }) by {}
        assert(no_drift(schema, live));
    }
    if no_drift(schema, live) {
        lemma_no_drift_diff_empty(schema, live);
    }
}

/// The reciprocal statement of a creating operation.
pub open spec fn reciprocal_drop(op: DdlOp) -> DdlOp {
    match op {
        DdlOp::CreateTable(m) => DdlOp::DropTable(m.table_name),
        DdlOp::AddColumn(t, f) => DdlOp::DropColumn(t, f.name),
        other => other,
    }
}

/// A change expressible purely as additions: no live table undeclared,
/// no undeclared live column in a declared table, and every column
/// present on both sides already matching in type and identity mode.
pub open spec fn additions_only(schema: Seq<EntityMeta>, live: Seq<LiveTable>) -> bool {
    &&& (forall|i: int|
        0 <= i < live.len() ==> meta_find(schema, (#[trigger] live[i]).name@) is Some)
    &&& (forall|i: int|
        0 <= i < schema.len() ==> (match table_find(live, (#[trigger] schema[i]).table_name@) {
            Some(lt) => {
                &&& (forall|j: int|
                    0 <= j < lt.columns@.len() ==> schema[i].has_field(
                        (#[trigger] lt.columns@[j]).name@,
                    ))
                &&& (forall|j: int|
                    0 <= j < schema[i].fields@.len() ==> (match column_find(
                        lt.columns@,
                        (#[trigger] schema[i].fields@[j]).name@,
                    ) {
                        Some(c) => c.ty@ == spec_column_type(schema[i].fields@[j].ty)
                            && c.identity_generation == schema[i].fields@[j].identity_generation,
                        None => true,
                    }))
            },
            None => true,
        }))
}

proof fn lemma_down_creates_of_creates(schema: Seq<EntityMeta>, live: Seq<LiveTable>)
    ensures
        spec_down_creates(schema, live) == spec_create_tables(schema, live).map_values(
            |op: DdlOp| reciprocal_drop(op),
        ),
    decreases schema.len(),
{
    if schema.len() == 0 {
        assert(spec_create_tables(schema, live).map_values(|op: DdlOp| reciprocal_drop(op)) =~= Seq::<
            DdlOp,
        >::empty());
    } else {
        lemma_down_creates_of_creates(schema.skip(1), live);
        assert(spec_down_creates(schema, live) =~= spec_create_tables(schema, live).map_values(
            |op: DdlOp| reciprocal_drop(op),
        ));
    }
}

proof fn lemma_down_fields_of_adds(table: String, fields: Seq<FieldMeta>, cols: Seq<LiveColumn>)
    requires
        forall|j: int|
            0 <= j < fields.len() ==> (match column_find(cols, (#[trigger] fields[j]).name@) {
                Some(c) => c.ty@ == spec_column_type(fields[j].ty) && c.identity_generation
                    == fields[j].identity_generation,
                None => true,
            }),
    ensures
        spec_down_fields(table, fields, cols) == spec_fields_ops(table, fields, cols).map_values(
            |op: DdlOp| reciprocal_drop(op),
        ),
        forall|k: int|
            0 <= k < spec_fields_ops(table, fields, cols).len() ==> (#[trigger] spec_fields_ops(
                table,
                fields,
                cols,
            )[k]) is AddColumn,
    decreases fields.len(),
{
    if fields.len() == 0 {
        assert(spec_fields_ops(table, fields, cols).map_values(|op: DdlOp| reciprocal_drop(op))
            =~= Seq::<DdlOp>::empty());
    } else {
        assert forall|j: int|
            0 <= j < fields.skip(1).len() implies (match column_find(
            cols,
            (#[trigger] fields.skip(1)[j]).name@,
        ) {
            Some(c) => c.ty@ == spec_column_type(fields.skip(1)[j].ty) && c.identity_generation
                == fields.skip(1)[j].identity_generation,
            None => true,
        }) by {
            assert(fields.skip(1)[j] == fields[j + 1]);
        }
        lemma_down_fields_of_adds(table, fields.skip(1), cols);
        match column_find(cols, fields[0].name@) {
            Some(c) => {
                assert(spec_field_ops(table, fields[0], cols) =~= Seq::<DdlOp>::empty());
            },
            None => {},
        }
        assert(spec_down_fields(table, fields, cols) =~= spec_fields_ops(
            table,
            fields,
            cols,
        ).map_values(|op: DdlOp| reciprocal_drop(op)));
    }
}

proof fn lemma_down_alters_of_adds(schema: Seq<EntityMeta>, live: Seq<LiveTable>)
    requires
        forall|i: int|
            0 <= i < schema.len() ==> (match table_find(live, (#[trigger] schema[i]).table_name@) {
                Some(lt) => {
                    &&& (forall|j: int|
                        0 <= j < lt.columns@.len() ==> schema[i].has_field(
                            (#[trigger] lt.columns@[j]).name@,
                        ))
                    &&& (forall|j: int|
                        0 <= j < schema[i].fields@.len() ==> (match column_find(
                            lt.columns@,
                            (#[trigger] schema[i].fields@[j]).name@,
                        ) {
                            Some(c) => c.ty@ == spec_column_type(schema[i].fields@[j].ty)
                                && c.identity_generation == schema[i].fields@[
                            j].identity_generation,
                            None => true,
                        }))
                },
                None => true,
            }),
    ensures
        spec_down_alters(schema, live) == spec_alter_ops(schema, live).map_values(
            |op: DdlOp| reciprocal_drop(op),
        ),
        forall|k: int|
            0 <= k < spec_alter_ops(schema, live).len() ==> (#[trigger] spec_alter_ops(
                schema,
                live,
            )[k]) is AddColumn,
    decreases schema.len(),
{
    if schema.len() == 0 {
        assert(spec_alter_ops(schema, live).map_values(|op: DdlOp| reciprocal_drop(op)) =~= Seq::<
            DdlOp,
        >::empty());
    } else {
        assert forall|i: int|
            0 <= i < schema.skip(1).len() implies (match table_find(
            live,
            (#[trigger] schema.skip(1)[i]).table_name@,
        ) {
            Some(lt) => {
                &&& (forall|j: int|
                    0 <= j < lt.columns@.len() ==> schema.skip(1)[i].has_field(
                        (#[trigger] lt.columns@[j]).name@,
                    ))
                &&& (forall|j: int|
                    0 <= j < schema.skip(1)[i].fields@.len() ==> (match column_find(
                        lt.columns@,
                        (#[trigger] schema.skip(1)[i].fields@[j]).name@,
                    ) {
                        Some(c) => c.ty@ == spec_column_type(schema.skip(1)[i].fields@[j].ty)
                            && c.identity_generation == schema.skip(1)[i].fields@[
                        j].identity_generation,
                        None => true,
                    }))
            },
            None => true,
        }) by {
            assert(schema.skip(1)[i] == schema[i + 1]);
        }
        lemma_down_alters_of_adds(schema.skip(1), live);
        match table_find(live, schema[0].table_name@) {
            Some(lt) => {
                lemma_drop_columns_empty(schema[0], lt.columns@);
                lemma_down_fields_of_adds(schema[0].table_name, schema[0].fields@, lt.columns@);
                assert(spec_table_ops(schema[0], lt) =~= spec_fields_ops(
                    schema[0].table_name,
                    schema[0].fields@,
                    lt.columns@,
                ));
            },
            None => {},
        }
        assert(spec_down_alters(schema, live) =~= spec_alter_ops(schema, live).map_values(
            |op: DdlOp| reciprocal_drop(op),
        ));
    }
}

proof fn lemma_create_tables_shape(schema: Seq<EntityMeta>, live: Seq<LiveTable>)
    ensures
        forall|k: int|
            0 <= k < spec_create_tables(schema, live).len() ==> (#[trigger] spec_create_tables(
                schema,
                live,
            )[k]) is CreateTable,
    decreases schema.len(),
{
    if schema.len() == 0 {
    } else {
        lemma_create_tables_shape(schema.skip(1), live);
    }
}

/// The structural round trip for a change expressible purely as
/// additions: the migration is reversible, nothing is rejected, every
/// forward statement creates a table or adds a column, and the reverse
/// batch is exactly one reciprocal drop for each forward statement, in
/// order — undoing everything the forward batch creates.
pub proof fn lemma_round_trip_additions(schema: Seq<EntityMeta>, live: Seq<LiveTable>)
    requires
        additions_only(schema, live),
    ensures
        !spec_has_dropped_table(schema, live),
        !spec_diff_err(schema, live),
        spec_up_ops(schema, live) == spec_create_tables(schema, live) + spec_alter_ops(
            schema,
            live,
        ),
        forall|k: int|
            0 <= k < spec_up_ops(schema, live).len() ==> ((#[trigger] spec_up_ops(
                schema,
                live,
            )[k]) is CreateTable || spec_up_ops(schema, live)[k] is AddColumn),
        spec_down_ops(schema, live) == spec_up_ops(schema, live).map_values(
            |op: DdlOp| reciprocal_drop(op),
        ),
{
    lemma_drop_tables_empty(schema, live);
    lemma_create_tables_shape(schema, live);
    assert(spec_up_ops(schema, live) =~= spec_create_tables(schema, live) + spec_alter_ops(
        schema,
        live,
    ));
    lemma_down_creates_of_creates(schema, live);
    lemma_down_alters_of_adds(schema, live);
    assert(spec_down_ops(schema, live) =~= spec_up_ops(schema, live).map_values(
        |op: DdlOp| reciprocal_drop(op),
    ));
    assert forall|i: int|
        0 <= i < schema.len() implies !(match table_find(
        live,
        (#[trigger] schema[i]).table_name@,
    ) {
        Some(lt) => spec_table_err(schema[i], lt),
        None => false,
    }) by {
        match table_find(live, schema[i].table_name@) {
            Some(lt) => {
                if spec_table_err(schema[i], lt) {
                    let j = choose|j: int|
                        0 <= j < schema[i].fields@.len() && spec_field_err(
                            #[trigger] schema[i].fields@[j],
                            lt.columns@,
                        );
                }
            },
            None => {},
        }
    }
}

/// Appending one more column line extends the joined body at the end.
proof fn lemma_column_lines_push(fields: Seq<FieldMeta>, f: FieldMeta)
    ensures
        spec_column_lines(fields.push(f)) == if fields.len() == 0 {
            spec_column_line(f)
        } else {
            spec_column_lines(fields) + ","@ + spec_column_line(f)
        },
    decreases fields.len(),
{
    if fields.len() == 0 {
        assert(fields.push(f) =~= seq![f]);
    } else {
        lemma_column_lines_push(fields.skip(1), f);
        assert(fields.push(f).skip(1) =~= fields.skip(1).push(f));
        if fields.len() == 1 {
            assert(spec_column_lines(fields.push(f)) =~= spec_column_lines(fields) + ","@
                + spec_column_line(f));
        } else {
            assert(spec_column_lines(fields.push(f)) =~= spec_column_lines(fields) + ","@
                + spec_column_line(f));
        }
    }
}

/// Appending one more primary-key column extends the joined list at the
/// end.
proof fn lemma_pk_cols_push(pk: Seq<String>, p: String)
    ensures
        spec_pk_cols(pk.push(p)) == if pk.len() == 0 {
            "\""@ + p@ + "\""@
        } else {
            spec_pk_cols(pk) + ", "@ + "\""@ + p@ + "\""@
        },
    decreases pk.len(),
{
    if pk.len() == 0 {
        assert(pk.push(p) =~= seq![p]);
    } else {
        lemma_pk_cols_push(pk.skip(1), p);
        assert(pk.push(p).skip(1) =~= pk.skip(1).push(p));
        if pk.len() == 1 {
            assert(spec_pk_cols(pk.push(p)) =~= spec_pk_cols(pk) + ", "@ + "\""@ + p@ + "\""@);
        } else {
            assert(spec_pk_cols(pk.push(p)) =~= spec_pk_cols(pk) + ", "@ + "\""@ + p@ + "\""@);
        }
    }
}

} // verus!
