use nice_orm::context::{aggregate_sql, row_matches, Context};
use nice_orm::entity::{eq_value, EntityInstance, Key, Value};
use nice_orm::entity_meta::{EntityMeta, FieldMeta, FieldType, IdentityGeneration};
use nice_orm::EntityField;

fn account_meta() -> EntityMeta {
    EntityMeta {
        table_name: "account".to_string(),
        fields: vec![
            FieldMeta {
                name: "id".to_string(),
                ty: FieldType::I32,
                optional: false,
                identity_generation: Some(IdentityGeneration::Always),
            },
            FieldMeta {
                name: "password".to_string(),
                ty: FieldType::Text,
                optional: false,
                identity_generation: None,
            },
            FieldMeta {
                name: "username".to_string(),
                ty: FieldType::Text,
                optional: false,
                identity_generation: None,
            },
        ],
        primary_key: vec!["id".to_string()],
    }
}

#[test]
fn fresh_instance_has_every_field_unset() {
    let e = EntityInstance::new(account_meta());
    assert_eq!(e.fields.len(), 3);
    for field in &e.fields {
        assert!(matches!(field, EntityField::Unset));
        assert!(!field.is_modified());
    }
    assert!(e.id().is_none());
}

#[test]
fn assignment_marks_the_field_modified() {
    let mut e = EntityInstance::new(account_meta());
    e.set_field(2, Value::Text("alice".to_string()));
    assert!(matches!(e.fields[0], EntityField::Unset));
    assert!(e.fields[2].is_modified());
    match &e.fields[2] {
        EntityField::Modified(Value::Text(s)) => assert_eq!(s, "alice"),
        other => panic!("unexpected state: {:?}", other),
    }
}

#[test]
fn insert_names_only_modified_fields_but_returns_all() {
    let mut e = EntityInstance::new(account_meta());
    e.set_field(2, Value::Text("alice".to_string()));
    e.set_field(1, Value::Text("hunter2".to_string()));
    let (sql, params) = e.build_insert();
    assert_eq!(
        sql,
        "INSERT INTO \"account\" (\"password\", \"username\") VALUES ($1, $2) RETURNING \"id\", \"password\", \"username\""
    );
    assert_eq!(params.len(), 2);
    assert!(eq_value(&params[0], &Value::Text("hunter2".to_string())));
    assert!(eq_value(&params[1], &Value::Text("alice".to_string())));
}

#[test]
fn flush_round_trip_confirms_fields_and_yields_key() {
    let mut e = EntityInstance::new(account_meta());
    e.set_field(2, Value::Text("alice".to_string()));
    e.set_field(1, Value::Text("hunter2".to_string()));
    // What the database hands back: the generated identity and the
    // stored texts.
    let row = vec![
        Value::I32(7),
        Value::Text("hunter2".to_string()),
        Value::Text("alice".to_string()),
    ];
    assert!(row_matches(&e, &row));
    e.apply_row(&row);
    for field in &e.fields {
        assert!(!field.is_modified());
    }
    match &e.fields[0] {
        EntityField::Loaded(Value::I32(id)) => assert_eq!(*id, 7),
        other => panic!("unexpected state: {:?}", other),
    }
    let key = e.id().unwrap();
    assert_eq!(key.type_tag, "account");
    assert_eq!(key.parts.len(), 1);
    assert!(eq_value(&key.parts[0], &Value::I32(7)));
}

#[test]
fn keys_of_distinct_types_never_collide() {
    let a = Key { type_tag: "account".to_string(), parts: vec![Value::I32(1)] };
    let b = Key { type_tag: "post".to_string(), parts: vec![Value::I32(1)] };
    let a2 = Key { type_tag: "account".to_string(), parts: vec![Value::I32(1)] };
    assert!(!a.key_eq(&b));
    assert!(a.key_eq(&a2));
    assert!(!a.key_eq(&Key { type_tag: "account".to_string(), parts: vec![Value::I32(2)] }));
}

#[test]
fn context_files_flushed_instances_under_their_key() {
    let mut ctx = Context::new();
    let mut e = EntityInstance::new(account_meta());
    e.set_field(2, Value::Text("alice".to_string()));
    e.set_field(1, Value::Text("hunter2".to_string()));
    let idx = ctx.add(e);
    assert_eq!(idx, 0);
    let pending = ctx.take_pending();
    assert_eq!(pending.len(), 1);
    assert!(ctx.take_pending().is_empty());

    let row = vec![
        Value::I32(7),
        Value::Text("hunter2".to_string()),
        Value::Text("alice".to_string()),
    ];
    for e in pending {
        assert!(e.check_wf());
        assert!(row_matches(&e, &row));
        ctx.absorb(e, &row);
    }
    assert_eq!(ctx.entities.len(), 1);
    let key = Key { type_tag: "account".to_string(), parts: vec![Value::I32(7)] };
    let stored = ctx.lookup(&key).unwrap();
    assert!(matches!(&stored.fields[0], EntityField::Loaded(Value::I32(7))));
    let miss = Key { type_tag: "post".to_string(), parts: vec![Value::I32(7)] };
    assert!(ctx.lookup(&miss).is_none());
}

#[test]
fn absorbing_the_same_key_twice_replaces_the_entry() {
    let mut ctx = Context::new();
    let row = vec![
        Value::I32(7),
        Value::Text("first".to_string()),
        Value::Text("alice".to_string()),
    ];
    let e1 = EntityInstance::new(account_meta());
    ctx.absorb(e1, &row);
    let row2 = vec![
        Value::I32(7),
        Value::Text("second".to_string()),
        Value::Text("alice".to_string()),
    ];
    let e2 = EntityInstance::new(account_meta());
    ctx.absorb(e2, &row2);
    assert_eq!(ctx.entities.len(), 1);
    let key = Key { type_tag: "account".to_string(), parts: vec![Value::I32(7)] };
    let stored = ctx.lookup(&key).unwrap();
    match &stored.fields[1] {
        EntityField::Loaded(Value::Text(s)) => assert_eq!(s, "second"),
        other => panic!("unexpected state: {:?}", other),
    }
}

#[test]
fn aggregate_sql_names_operation_and_table() {
    assert_eq!(aggregate_sql("count", "account"), "SELECT count(*) FROM \"account\";");
}

#[test]
fn entity_field_transitions() {
    let mut f: EntityField<i32> = EntityField::Unset;
    assert!(!f.is_modified());
    f.assign(4);
    assert!(f.is_modified());
    assert_eq!(*f.get(), 4);
    f.confirm(5);
    assert!(!f.is_modified());
    assert_eq!(*f.get(), 5);
}

#[test]
fn parameter_placeholders_count_past_nine() {
    let mut fields = Vec::new();
    for i in 0..11 {
        fields.push(FieldMeta {
            name: format!("f{:02}", i),
            ty: FieldType::I32,
            optional: false,
            identity_generation: None,
        });
    }
    let meta = EntityMeta {
        table_name: "wide".to_string(),
        fields,
        primary_key: vec![],
    };
    let mut e = EntityInstance::new(meta);
    for i in 0..11 {
        e.set_field(i, Value::I32(i as i32));
    }
    let (sql, params) = e.build_insert();
    assert!(sql.contains("$9, $10, $11)"));
    assert_eq!(params.len(), 11);
}
