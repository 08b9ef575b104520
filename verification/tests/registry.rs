//! The field registry and the dynamic query type, exercised end to end on
//! concrete relation lists.

use pgql_schema::schema::introspection::{Database, Introspection, Relation, Schema};
use pgql_schema::schema::{build, Dispatch, Query, Resolver, ScalarKind, ScalarValue, TypeInfo};

fn relation(name: &str) -> Relation {
    Relation {
        name: name.to_owned(),
    }
}

fn one_schema_introspection(schema_name: &str, relation_names: &[&str]) -> Introspection {
    let names: Vec<String> = relation_names.iter().map(|n| (*n).to_owned()).collect();
    let schema = Schema::from(schema_name.to_owned(), names);
    let db = Database::from(
        "db".to_owned(),
        vec![schema_name.to_owned()],
        vec![(0usize, schema.relations)],
    )
    .expect("one tagged result per schema name");
    Introspection::from(db)
}

#[test]
fn publish_sorts_and_deduplicates_names() {
    let intro = one_schema_introspection("public", &["users", "accounts", "users", "orders"]);
    let info = build(&intro);
    let published = info.publish();
    let names: Vec<String> = published.iter().map(|p| p.0.clone()).collect();
    assert_eq!(names, vec!["accounts", "orders", "users"]);
    for entry in &published {
        assert_eq!(entry.1, ScalarKind::Integer);
    }
}

#[test]
fn publish_of_empty_relation_list_is_empty() {
    let intro = one_schema_introspection("public", &[]);
    let info = build(&intro);
    assert!(build(&intro).publish().is_empty());
    assert!(matches!(
        Query::dispatch(&info, "anything"),
        Dispatch::InternalFault
    ));
}

#[test]
fn lookup_finds_the_registered_descriptor() {
    let intro = one_schema_introspection("public", &["users", "orders"]);
    let info = build(&intro);
    let descriptor = info.lookup("users").expect("users is registered");
    assert_eq!(descriptor.name, "users");
    assert_eq!(descriptor.declared, ScalarKind::Integer);
    assert!(info.lookup("missing").is_none());
}

#[test]
fn lookup_after_duplicate_names_returns_one_descriptor() {
    let info = TypeInfo::new(
        "Query".to_owned(),
        vec![
            pgql_schema::schema::FieldDescriptor {
                name: "t".to_owned(),
                declared: ScalarKind::Integer,
                resolver: Resolver::PlaceholderInt,
            },
            pgql_schema::schema::FieldDescriptor {
                name: "t".to_owned(),
                declared: ScalarKind::Integer,
                resolver: Resolver::PlaceholderInt,
            },
        ],
    );
    let descriptor = info.lookup("t").expect("t is registered");
    assert_eq!(descriptor.name, "t");
    assert_eq!(info.publish().len(), 1);
}

#[test]
fn dispatch_on_registered_field_returns_its_descriptor() {
    let intro = one_schema_introspection("public", &["users"]);
    let info = build(&intro);
    match Query::dispatch(&info, "users") {
        Dispatch::Field(d) => assert_eq!(d.name, "users"),
        Dispatch::InternalFault => panic!("users is registered"),
    }
}

#[test]
fn dispatch_on_unregistered_field_signals_the_internal_fault() {
    let intro = one_schema_introspection("public", &["users", "orders"]);
    let info = build(&intro);
    assert!(matches!(
        Query::dispatch(&info, "accounts"),
        Dispatch::InternalFault
    ));
}

#[test]
fn query_name_is_the_registry_name() {
    let intro = one_schema_introspection("public", &["users"]);
    let info = build(&intro);
    assert_eq!(Query::name(&info), "Query");
    let meta = Query::meta(&info);
    assert_eq!(meta.len(), 1);
    assert_eq!(meta[0].0, "users");
}

#[test]
fn placeholder_resolver_runs_the_constant_query() {
    let intro = one_schema_introspection("public", &["users"]);
    let info = build(&intro);
    let descriptor = info.lookup("users").expect("users is registered");
    assert_eq!(descriptor.resolver.query_text(), "select 2");
}

#[test]
fn register_pairs_the_name_with_the_declared_kind() {
    let intro = one_schema_introspection("public", &["users"]);
    let info = build(&intro);
    let descriptor = info.lookup("users").expect("users is registered");
    let (name, kind) = descriptor.register();
    assert_eq!(name, "users");
    assert_eq!(kind, ScalarKind::Integer);
}

#[test]
fn end_to_end_public_schema_with_orders_and_users() {
    let intro = one_schema_introspection("public", &["orders", "users"]);
    let info = build(&intro);

    let published: Vec<String> = info.publish().iter().map(|p| p.0.clone()).collect();
    assert_eq!(published, vec!["orders", "users"]);

    match Query::dispatch(&info, "users") {
        Dispatch::Field(d) => {
            assert_eq!(d.resolver.query_text(), "select 2");
            let value = d.resolve(Ok(2)).expect("the query succeeded");
            assert_eq!(value, ScalarValue::Int(2));
        }
        Dispatch::InternalFault => panic!("users is registered"),
    }

    assert!(matches!(
        Query::dispatch(&info, "accounts"),
        Dispatch::InternalFault
    ));
}

#[test]
fn failed_resolution_becomes_a_field_error_and_siblings_survive() {
    let intro = one_schema_introspection("public", &["orders", "users"]);
    let info = build(&intro);

    let users = info.lookup("users").expect("users is registered");
    let failed = users.resolve(Err("pool acquisition failed".to_owned()));
    match failed {
        Ok(_) => panic!("a failed outcome must surface as a field error"),
        Err(e) => assert_eq!(e.message, "pool acquisition failed"),
    }

    let orders = info.lookup("orders").expect("orders is registered");
    let sibling = orders.resolve(Ok(2)).expect("the sibling field succeeded");
    assert_eq!(sibling, ScalarValue::Int(2));
}
