use nice_orm::entity_meta::{check_schema_wf, EntityMeta, FieldMeta, FieldType, IdentityGeneration};
use nice_orm::live_schema::{build_live_schema, CatalogError, ColumnRow, LiveColumn, LiveSchema, LiveTable};
use nice_orm::migration::{migration_file_names, migration_name};
use nice_orm::sql_gen::PostgresSqlGen;
use nice_orm::storage::FileStorage;

fn account_meta() -> EntityMeta {
    EntityMeta {
        table_name: "account".to_string(),
        fields: vec![
            FieldMeta {
                name: "id".to_string(),
                ty: FieldType::I32,
                optional: false,
                identity_generation: Some(IdentityGeneration::Always),
            },
            FieldMeta {
                name: "password".to_string(),
                ty: FieldType::Text,
                optional: false,
                identity_generation: None,
            },
            FieldMeta {
                name: "username".to_string(),
                ty: FieldType::Text,
                optional: false,
                identity_generation: None,
            },
        ],
        primary_key: vec!["id".to_string()],
    }
}

fn live_account_table() -> LiveTable {
    LiveTable {
        name: "account".to_string(),
        columns: vec![
            LiveColumn {
                name: "id".to_string(),
                ty: "integer".to_string(),
                identity_generation: Some(IdentityGeneration::Always),
            },
            LiveColumn {
                name: "password".to_string(),
                ty: "character varying".to_string(),
                identity_generation: None,
            },
            LiveColumn {
                name: "username".to_string(),
                ty: "character varying".to_string(),
                identity_generation: None,
            },
        ],
    }
}

#[test]
fn create_table_from_empty_database() {
    let gen = PostgresSqlGen::new(vec![account_meta()]);
    let live = LiveSchema { tables: vec![] };
    let (up, down) = gen.gen_migration(&live).unwrap();
    assert_eq!(
        up,
        "CREATE TABLE \"account\" (\n\t\"id\" integer NOT NULL GENERATED ALWAYS AS IDENTITY,\n\t\"password\" character varying NOT NULL,\n\t\"username\" character varying NOT NULL,\n\tPRIMARY KEY (\"id\")\n);\n"
    );
    assert_eq!(down, Some("DROP TABLE \"account\";".to_string()));
}

#[test]
fn rediff_after_apply_is_empty() {
    let gen = PostgresSqlGen::new(vec![account_meta()]);
    let applied = LiveSchema { tables: vec![live_account_table()] };
    let (up, down) = gen.gen_migration(&applied).unwrap();
    assert_eq!(up, "");
    assert_eq!(down, Some(String::new()));
}

#[test]
fn dropped_table_discards_down() {
    let gen = PostgresSqlGen::new(vec![account_meta()]);
    let live = LiveSchema {
        tables: vec![
            live_account_table(),
            LiveTable { name: "stale".to_string(), columns: vec![] },
        ],
    };
    let (up, down) = gen.gen_migration(&live).unwrap();
    assert_eq!(up, "DROP TABLE \"stale\";");
    assert_eq!(down, None);
}

#[test]
fn dropped_table_discards_down_even_with_reversible_parts() {
    let gen = PostgresSqlGen::new(vec![account_meta()]);
    let live = LiveSchema {
        tables: vec![LiveTable { name: "stale".to_string(), columns: vec![] }],
    };
    let (up, down) = gen.gen_migration(&live).unwrap();
    // The table creation alone would be reversible, but the drop makes
    // the whole migration irreversible.
    assert!(up.starts_with("DROP TABLE \"stale\";\nCREATE TABLE \"account\""));
    assert_eq!(down, None);
}

#[test]
fn added_column_gets_reciprocal_drop() {
    let gen = PostgresSqlGen::new(vec![account_meta()]);
    let mut table = live_account_table();
    table.columns.remove(2);
    let live = LiveSchema { tables: vec![table] };
    let (up, down) = gen.gen_migration(&live).unwrap();
    assert_eq!(
        up,
        "ALTER TABLE \"account\" ADD COLUMN \"username\" character varying NOT NULL;"
    );
    assert_eq!(
        down,
        Some("ALTER TABLE \"account\" DROP COLUMN \"username\";".to_string())
    );
}

#[test]
fn undeclared_column_is_dropped_without_down() {
    let gen = PostgresSqlGen::new(vec![account_meta()]);
    let mut table = live_account_table();
    table.columns.push(LiveColumn {
        name: "zombie".to_string(),
        ty: "integer".to_string(),
        identity_generation: None,
    });
    let live = LiveSchema { tables: vec![table] };
    let (up, down) = gen.gen_migration(&live).unwrap();
    assert_eq!(up, "ALTER TABLE \"account\" DROP COLUMN \"zombie\";");
    // Only new tables and new columns get reciprocal statements.
    assert_eq!(down, Some(String::new()));
}

#[test]
fn type_change_is_forward_only() {
    let gen = PostgresSqlGen::new(vec![account_meta()]);
    let mut table = live_account_table();
    table.columns[2].ty = "text".to_string();
    let live = LiveSchema { tables: vec![table] };
    let (up, down) = gen.gen_migration(&live).unwrap();
    assert_eq!(
        up,
        "ALTER TABLE \"account\" ALTER COLUMN \"username\" TYPE character varying;"
    );
    assert_eq!(down, Some(String::new()));
}

#[test]
fn adding_identity_generation_is_supported() {
    let gen = PostgresSqlGen::new(vec![account_meta()]);
    let mut table = live_account_table();
    table.columns[0].identity_generation = None;
    let live = LiveSchema { tables: vec![table] };
    let (up, down) = gen.gen_migration(&live).unwrap();
    assert_eq!(
        up,
        "ALTER TABLE \"account\" ALTER COLUMN \"id\" ADD GENERATED ALWAYS AS IDENTITY;"
    );
    assert_eq!(down, Some(String::new()));
}

#[test]
fn removing_identity_generation_is_rejected() {
    let mut meta = account_meta();
    meta.fields[0].identity_generation = None;
    let gen = PostgresSqlGen::new(vec![meta]);
    let live = LiveSchema { tables: vec![live_account_table()] };
    let err = gen.gen_migration(&live).unwrap_err();
    match err {
        nice_orm::sql_gen::MigrationError::IdentityGenerationRemoval { table, column } => {
            assert_eq!(table, "account");
            assert_eq!(column, "id");
        },
    }
}

#[test]
fn statement_helpers_render_exactly() {
    let gen = PostgresSqlGen::new(vec![]);
    let field = FieldMeta {
        name: "age".to_string(),
        ty: FieldType::I32,
        optional: true,
        identity_generation: None,
    };
    assert_eq!(gen.drop_table("t"), "DROP TABLE \"t\";");
    assert_eq!(
        gen.create_column("t", &field),
        "ALTER TABLE \"t\" ADD COLUMN \"age\" integer NULL;"
    );
    assert_eq!(gen.drop_column("t", "age"), "ALTER TABLE \"t\" DROP COLUMN \"age\";");
    assert_eq!(
        gen.update_column("t", &field),
        "ALTER TABLE \"t\" ALTER COLUMN \"age\" TYPE integer;"
    );
    assert_eq!(PostgresSqlGen::entity_type_to_column_type(FieldType::Text), "character varying");
    assert_eq!(PostgresSqlGen::make_column_constraints(&field), "NULL");
}

#[test]
fn identity_generation_labels_parse_and_render() {
    assert_eq!(IdentityGeneration::from_name("ALWAYS"), IdentityGeneration::Always);
    assert_eq!(IdentityGeneration::from_name("BY DEFAULT"), IdentityGeneration::ByDefault);
    assert_eq!(
        IdentityGeneration::parse_name("BY ACCIDENT"),
        None
    );
    assert_eq!(PostgresSqlGen::identity_generation(IdentityGeneration::Always), "ALWAYS");
    assert_eq!(PostgresSqlGen::identity_generation(IdentityGeneration::ByDefault), "BY DEFAULT");
}

#[test]
fn live_schema_groups_rows_by_table() {
    let rows = vec![
        ColumnRow {
            table_name: "account".to_string(),
            column_name: "id".to_string(),
            data_type: "integer".to_string(),
            identity_generation: Some("ALWAYS".to_string()),
        },
        ColumnRow {
            table_name: "post".to_string(),
            column_name: "title".to_string(),
            data_type: "character varying".to_string(),
            identity_generation: None,
        },
        ColumnRow {
            table_name: "account".to_string(),
            column_name: "username".to_string(),
            data_type: "character varying".to_string(),
            identity_generation: None,
        },
    ];
    let tables = vec!["empty_table".to_string(), "account".to_string()];
    let ls = build_live_schema(&rows, &tables).unwrap();
    assert_eq!(ls.tables.len(), 3);
    assert_eq!(ls.tables[0].name, "account");
    assert_eq!(ls.tables[0].columns.len(), 2);
    assert_eq!(ls.tables[0].columns[0].name, "id");
    assert_eq!(
        ls.tables[0].columns[0].identity_generation,
        Some(IdentityGeneration::Always)
    );
    assert_eq!(ls.tables[1].name, "post");
    assert_eq!(ls.tables[1].columns[0].ty, "character varying");
    assert_eq!(ls.tables[2].name, "empty_table");
    assert!(ls.tables[2].columns.is_empty());
}

#[test]
fn live_schema_rejects_duplicate_column() {
    let row = |c: &str| ColumnRow {
        table_name: "account".to_string(),
        column_name: c.to_string(),
        data_type: "integer".to_string(),
        identity_generation: None,
    };
    let rows = vec![row("id"), row("id")];
    match build_live_schema(&rows, &vec![]).unwrap_err() {
        CatalogError::DuplicateColumn { table, column } => {
            assert_eq!(table, "account");
            assert_eq!(column, "id");
        },
        other => panic!("unexpected error: {:?}", other),
    }
}

#[test]
fn live_schema_rejects_unknown_identity_label() {
    let rows = vec![ColumnRow {
        table_name: "account".to_string(),
        column_name: "id".to_string(),
        data_type: "integer".to_string(),
        identity_generation: Some("SOMETIMES".to_string()),
    }];
    match build_live_schema(&rows, &vec![]).unwrap_err() {
        CatalogError::UnknownIdentityGeneration { label } => assert_eq!(label, "SOMETIMES"),
        other => panic!("unexpected error: {:?}", other),
    }
}

#[test]
fn migration_file_names_follow_reversibility() {
    let (up, down) = migration_file_names("20240101120000_init", true);
    assert_eq!(up, "20240101120000_init.up.sql");
    assert_eq!(down, Some("20240101120000_init.down.sql".to_string()));
    let (up, down) = migration_file_names("20240101120000_init", false);
    assert_eq!(up, "20240101120000_init.sql");
    assert_eq!(down, None);
}

#[test]
fn migration_name_carries_the_operator_name() {
    let name = migration_name("add_accounts");
    assert!(name.ends_with("_add_accounts"));
    assert!(name.len() > "_add_accounts".len());
}

#[test]
fn file_storage_places_tables_under_base_path() {
    let storage = FileStorage::new("/var/data".to_string());
    assert_eq!(storage.table_file("account"), "/var/data/account.json");
}

#[test]
fn meta_well_formedness_checks_order_and_keys() {
    assert!(account_meta().check_wf());
    let mut unsorted = account_meta();
    unsorted.fields.swap(0, 1);
    assert!(!unsorted.check_wf());
    let mut bad_pk = account_meta();
    bad_pk.primary_key = vec!["missing".to_string()];
    assert!(!bad_pk.check_wf());
}

#[test]
fn phases_emit_drops_then_creates_then_alters() {
    let mut meta = account_meta();
    meta.fields.remove(1);
    let other = EntityMeta {
        table_name: "post".to_string(),
        fields: vec![FieldMeta {
            name: "id".to_string(),
            ty: FieldType::I32,
            optional: false,
            identity_generation: None,
        }],
        primary_key: vec!["id".to_string()],
    };
    let gen = PostgresSqlGen::new(vec![meta, other]);
    let live = LiveSchema {
        tables: vec![
            live_account_table(),
            LiveTable { name: "stale".to_string(), columns: vec![] },
        ],
    };
    let (up, down) = gen.gen_migration(&live).unwrap();
    let expected = "DROP TABLE \"stale\";\n\
        CREATE TABLE \"post\" (\n\t\"id\" integer NOT NULL,\n\tPRIMARY KEY (\"id\")\n);\n\n\
        ALTER TABLE \"account\" DROP COLUMN \"password\";";
    assert_eq!(up, expected);
    assert_eq!(down, None);
}

#[test]
fn create_table_without_primary_key_omits_the_clause() {
    let meta = EntityMeta {
        table_name: "log_line".to_string(),
        fields: vec![FieldMeta {
            name: "message".to_string(),
            ty: FieldType::Text,
            optional: true,
            identity_generation: None,
        }],
        primary_key: vec![],
    };
    let gen = PostgresSqlGen::new(vec![meta]);
    let live = LiveSchema { tables: vec![] };
    let (up, _) = gen.gen_migration(&live).unwrap();
    assert_eq!(
        up,
        "CREATE TABLE \"log_line\" (\n\t\"message\" character varying NULL\n);\n"
    );
}

#[test]
fn schema_well_formedness_checks_table_order() {
    let post = EntityMeta {
        table_name: "post".to_string(),
        fields: vec![],
        primary_key: vec![],
    };
    assert!(check_schema_wf(&vec![account_meta(), post]));
    let post = EntityMeta {
        table_name: "post".to_string(),
        fields: vec![],
        primary_key: vec![],
    };
    assert!(!check_schema_wf(&vec![post, account_meta()]));
}
