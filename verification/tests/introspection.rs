//! The introspection model: schema-name discovery, assembly of concurrent
//! per-schema results, and the flattened relation order.

use pgql_schema::schema::introspection::{
    database_name_query, relations_query, schema_comment_query, Database, Introspection, Relation,
    Schema,
};

fn relations(names: &[&str]) -> Vec<Relation> {
    names
        .iter()
        .map(|n| Relation {
            name: (*n).to_owned(),
        })
        .collect()
}

fn names(list: &[&str]) -> Vec<String> {
    list.iter().map(|n| (*n).to_owned()).collect()
}

#[test]
fn queries_are_the_catalog_texts() {
    assert_eq!(database_name_query(), "select current_database()");
    assert_eq!(
        relations_query(),
        "select table_name as name from information_schema.tables where table_schema = $1::text"
    );
    assert_eq!(
        schema_comment_query(),
        "select description from pg_shdescription join pg_database on objoid = pg_database.oid where datname = $1"
    );
}

#[test]
fn absent_comment_defaults_to_public() {
    assert_eq!(Database::schema_names(None), vec!["public"]);
}

#[test]
fn comment_is_split_on_commas_in_order() {
    assert_eq!(
        Database::schema_names(Some("b,a".to_owned())),
        vec!["b", "a"]
    );
    assert_eq!(
        Database::schema_names(Some("sales".to_owned())),
        vec!["sales"]
    );
}

#[test]
fn comment_splitting_keeps_empty_pieces() {
    assert_eq!(Database::schema_names(Some("".to_owned())), vec![""]);
    assert_eq!(
        Database::schema_names(Some("a,,b,".to_owned())),
        vec!["a", "", "b", ""]
    );
}

#[test]
fn schema_from_keeps_the_query_order() {
    let s = Schema::from("public".to_owned(), names(&["orders", "users"]));
    assert_eq!(s.name, "public");
    let rel_names: Vec<&str> = s.relations.iter().map(|r| r.name.as_str()).collect();
    assert_eq!(rel_names, vec!["orders", "users"]);
}

#[test]
fn assembly_follows_the_input_name_order_not_completion_order() {
    let b_rels = relations(&["b1", "b2"]);
    let a_rels = relations(&["a1"]);

    // the second schema's query completed first
    let db = Database::from(
        "db".to_owned(),
        names(&["b", "a"]),
        vec![(1usize, a_rels.clone()), (0usize, b_rels.clone())],
    )
    .expect("each position is tagged once");

    assert_eq!(db.schemas.len(), 2);
    assert_eq!(db.schemas[0].name, "b");
    assert_eq!(db.schemas[1].name, "a");

    let db_relations = db.relations();
    let flat: Vec<&str> = db_relations.iter().map(|r| r.name.as_str()).collect();
    assert_eq!(flat, vec!["b1", "b2", "a1"]);

    // the same results in the input order assemble to the same tree
    let db2 = Database::from(
        "db".to_owned(),
        names(&["b", "a"]),
        vec![(0usize, b_rels), (1usize, a_rels)],
    )
    .expect("each position is tagged once");
    let db2_relations = db2.relations();
    let flat2: Vec<&str> = db2_relations.iter().map(|r| r.name.as_str()).collect();
    assert_eq!(flat, flat2);
}

#[test]
fn assembly_rejects_missing_duplicate_or_stray_tags() {
    let rels = relations(&["r"]);
    // one result short
    assert!(Database::from("db".to_owned(), names(&["a", "b"]), vec![(0usize, rels.clone())]).is_none());
    // the same position tagged twice
    assert!(Database::from(
        "db".to_owned(),
        names(&["a", "b"]),
        vec![(0usize, rels.clone()), (0usize, rels.clone())]
    )
    .is_none());
    // a tag beyond the last position
    assert!(Database::from(
        "db".to_owned(),
        names(&["a"]),
        vec![(1usize, rels.clone())]
    )
    .is_none());
}

#[test]
fn introspection_relations_flatten_the_whole_tree() {
    let db = Database::from(
        "db".to_owned(),
        names(&["public", "sales"]),
        vec![
            (0usize, relations(&["users", "orders"])),
            (1usize, relations(&["invoices"])),
        ],
    )
    .expect("each position is tagged once");
    let intro = Introspection::from(db);
    let intro_relations = intro.relations();
    let flat: Vec<&str> = intro_relations.iter().map(|r| r.name.as_str()).collect();
    assert_eq!(flat, vec!["users", "orders", "invoices"]);
}

#[test]
fn empty_schema_list_assembles_to_an_empty_tree() {
    let db = Database::from("db".to_owned(), Vec::new(), Vec::new())
        .expect("nothing to pair");
    assert!(db.schemas.is_empty());
    assert!(db.relations().is_empty());
}
