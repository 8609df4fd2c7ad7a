use diary_store::crypto::{generate_key, Crypto};
use diary_store::store::{add_relationship_request, DiaryDB, EntryRow, Relationship, StoreError, Tag, Tagging};
use std::time::{Duration, Instant};

fn fresh_db() -> DiaryDB {
    DiaryDB::new(generate_key())
}

fn tags(names: &[&str]) -> Vec<String> {
    names.iter().map(|s| s.to_string()).collect()
}

fn spin_wait(millis: u64) {
    let start = Instant::now();
    while start.elapsed() < Duration::from_millis(millis) {}
}

#[test]
fn create_and_read_back() {
    let mut db = fresh_db();
    let id = db
        .save_diary(None, "Hello", "secret body", &tags(&["work", "ideas"]))
        .unwrap();
    let entry = db.get_diary(&id).unwrap();
    assert_eq!(entry.id, id);
    assert_eq!(entry.title, "Hello");
    assert_eq!(entry.content, "secret body");
    let mut got = entry.tags.clone();
    got.sort();
    assert_eq!(got, vec!["ideas".to_string(), "work".to_string()]);
}

#[test]
fn update_changes_updated_at_preserves_created_at() {
    let mut db = fresh_db();
    let id = db.save_diary(None, "first", "body", &tags(&[])).unwrap();
    let before = db.get_diary(&id).unwrap();
    spin_wait(1100);
    let id2 = db
        .save_diary(Some(&id), "second", "body two", &tags(&[]))
        .unwrap();
    assert_eq!(id2, id);
    let after = db.get_diary(&id).unwrap();
    assert_eq!(after.created_at, before.created_at);
    assert!(after.updated_at > after.created_at);
    assert_eq!(after.title, "second");
    assert_eq!(after.content, "body two");
}

#[test]
fn search_by_tag_newest_first() {
    let mut db = fresh_db();
    let a = db.save_diary(None, "A", "a", &tags(&["a"])).unwrap();
    spin_wait(5);
    let _b = db.save_diary(None, "B", "b", &tags(&["b"])).unwrap();
    spin_wait(5);
    let c = db.save_diary(None, "C", "c", &tags(&["a", "b"])).unwrap();
    let found = db.search_diaries_by_tag("a").unwrap();
    let ids: Vec<String> = found.iter().map(|e| e.id.clone()).collect();
    assert_eq!(ids, vec![c, a]);
}

#[test]
fn delete_cascades() {
    let mut db = fresh_db();
    let p = db.save_diary(None, "P", "parent", &tags(&["x"])).unwrap();
    let c = db.save_diary(None, "C", "child", &tags(&["x"])).unwrap();
    let rid = db.add_relationship("rel-1", &p, &c, "depends_on").unwrap();
    assert_eq!(rid, "rel-1");
    db.delete_diary(&p).unwrap();
    assert!(db.get_relationships(&c).unwrap().is_empty());
    let tagged: Vec<String> = db
        .search_diaries_by_tag("x")
        .unwrap()
        .iter()
        .map(|e| e.id.clone())
        .collect();
    assert_eq!(tagged, vec![c]);
    assert_eq!(db.get_diary(&p), Err(StoreError::NotFound));
}

#[test]
fn graph_direction_child_to_parent() {
    let mut db = fresh_db();
    let p = db.save_diary(None, "P", "parent", &tags(&[])).unwrap();
    let c = db.save_diary(None, "C", "child", &tags(&[])).unwrap();
    let rid = db.add_relationship("rel-blocks", &p, &c, "blocks").unwrap();
    let graph = db.get_graph_data().unwrap();
    let edge = graph.edges.iter().find(|e| e.id == rid).unwrap();
    assert_eq!(edge.source, c);
    assert_eq!(edge.target, p);
    assert_eq!(edge.label, "blocks");
}

#[test]
fn encryption_at_rest() {
    let mut db = fresh_db();
    let id = db
        .save_diary(None, "title", "very secret body", &tags(&[]))
        .unwrap();
    let stored = db.body_envelope_of(&id).unwrap();
    assert!(!stored.contains("very secret body"));
    let v: serde_json::Value = serde_json::from_str(&stored).unwrap();
    assert_eq!(v["nonce"].as_array().unwrap().len(), 12);
    assert!(v["ciphertext"].as_array().unwrap().len() >= "very secret body".len() + 16);
}

#[test]
fn shared_tag_name_is_stored_once() {
    let mut db = fresh_db();
    for i in 0..5 {
        db.save_diary(None, &format!("e{}", i), "b", &tags(&["shared", "other"]))
            .unwrap();
    }
    let graph = db.get_graph_data().unwrap();
    let shared_tags = graph
        .nodes
        .iter()
        .filter(|n| n.node_type == "tag" && n.label == "shared")
        .count();
    assert_eq!(shared_tags, 1);
}

#[test]
fn update_replaces_tag_set() {
    let mut db = fresh_db();
    let id = db.save_diary(None, "t", "b", &tags(&["a", "b"])).unwrap();
    db.save_diary(Some(&id), "t", "b", &tags(&["c"])).unwrap();
    let entry = db.get_diary(&id).unwrap();
    assert_eq!(entry.tags, vec!["c".to_string()]);
}

#[test]
fn duplicate_tag_names_deduplicate() {
    let mut db = fresh_db();
    let id = db
        .save_diary(None, "t", "b", &tags(&["same", "same", "same"]))
        .unwrap();
    let entry = db.get_diary(&id).unwrap();
    assert_eq!(entry.tags, vec!["same".to_string()]);
    let graph = db.get_graph_data().unwrap();
    let count = graph
        .nodes
        .iter()
        .filter(|n| n.node_type == "tag" && n.label == "same")
        .count();
    assert_eq!(count, 1);
}

#[test]
fn empty_tag_list_clears_tags() {
    let mut db = fresh_db();
    let id = db.save_diary(None, "t", "b", &tags(&["a"])).unwrap();
    db.save_diary(Some(&id), "t", "b", &tags(&[])).unwrap();
    assert!(db.get_diary(&id).unwrap().tags.is_empty());
}

#[test]
fn update_of_unknown_id_is_accepted() {
    // the upsert does not verify prior existence: a no-op update still
    // reports the identifier as saved
    let mut db = fresh_db();
    let out = db.save_diary(Some("ghost"), "t", "b", &tags(&[])).unwrap();
    assert_eq!(out, "ghost");
    assert_eq!(db.get_diary("ghost"), Err(StoreError::NotFound));
}

#[test]
fn listing_is_newest_first() {
    let mut db = fresh_db();
    for i in 0..4 {
        db.save_diary(None, &format!("e{}", i), "b", &tags(&[])).unwrap();
        spin_wait(5);
    }
    let all = db.list_diaries().unwrap();
    assert_eq!(all.len(), 4);
    for w in all.windows(2) {
        assert!(w[0].created_at >= w[1].created_at);
    }
    assert_eq!(all[0].title, "e3");
}

#[test]
fn init_is_idempotent() {
    let mut db = fresh_db();
    let id = db.save_diary(None, "keep", "body", &tags(&["k"])).unwrap();
    db.initialize_db().unwrap();
    db.initialize_db().unwrap();
    let entry = db.get_diary(&id).unwrap();
    assert_eq!(entry.title, "keep");
    assert_eq!(entry.content, "body");
    assert_eq!(db.list_diaries().unwrap().len(), 1);
}

#[test]
fn graph_closure_on_sample_data() {
    let mut db = fresh_db();
    let p = db.save_diary(None, "P", "p", &tags(&["t1"])).unwrap();
    let c = db.save_diary(None, "C", "c", &tags(&["t1", "t2"])).unwrap();
    db.add_relationship("r1", &p, &c, "depends_on").unwrap();
    let graph = db.get_graph_data().unwrap();
    let node_ids: Vec<&String> = graph.nodes.iter().map(|n| &n.id).collect();
    for edge in &graph.edges {
        assert!(node_ids.contains(&&edge.source));
        assert!(node_ids.contains(&&edge.target));
    }
    // entry nodes come before tag nodes
    assert_eq!(graph.nodes[0].node_type, "diary");
    assert_eq!(graph.nodes[1].node_type, "diary");
    assert_eq!(graph.nodes[2].node_type, "tag");
}

#[test]
fn tag_edge_shape() {
    let mut db = fresh_db();
    let id = db.save_diary(None, "E", "b", &tags(&["work"])).unwrap();
    let graph = db.get_graph_data().unwrap();
    let tag_node = graph
        .nodes
        .iter()
        .find(|n| n.node_type == "tag" && n.label == "work")
        .unwrap();
    let edge = graph
        .edges
        .iter()
        .find(|e| e.label == "tagged_as_work")
        .unwrap();
    assert_eq!(edge.source, id);
    assert_eq!(edge.target, tag_node.id);
    assert_eq!(edge.id, format!("tag-{}-{}", id, tag_node.id));
}

#[test]
fn relationship_endpoints_must_exist() {
    let mut db = fresh_db();
    let p = db.save_diary(None, "P", "p", &tags(&[])).unwrap();
    assert_eq!(
        db.add_relationship("r1", &p, "missing", "depends_on"),
        Err(StoreError::Conflict)
    );
    assert_eq!(
        db.add_relationship("r1", "missing", &p, "depends_on"),
        Err(StoreError::Conflict)
    );
    assert!(db.get_relationships(&p).unwrap().is_empty());
}

#[test]
fn relationship_ids_are_unique() {
    let mut db = fresh_db();
    let p = db.save_diary(None, "P", "p", &tags(&[])).unwrap();
    let c = db.save_diary(None, "C", "c", &tags(&[])).unwrap();
    db.add_relationship("r1", &p, &c, "depends_on").unwrap();
    assert_eq!(
        db.add_relationship("r1", &c, &p, "blocks"),
        Err(StoreError::Conflict)
    );
}

#[test]
fn delete_relationship_is_quiet_on_unknown() {
    let mut db = fresh_db();
    let p = db.save_diary(None, "P", "p", &tags(&[])).unwrap();
    let c = db.save_diary(None, "C", "c", &tags(&[])).unwrap();
    db.add_relationship("r1", &p, &c, "depends_on").unwrap();
    db.delete_relationship("no-such-id").unwrap();
    assert_eq!(db.get_relationships(&p).unwrap().len(), 1);
    db.delete_relationship("r1").unwrap();
    assert!(db.get_relationships(&p).unwrap().is_empty());
}

#[test]
fn delete_unknown_entry_is_not_found() {
    let mut db = fresh_db();
    assert_eq!(db.delete_diary("nope"), Err(StoreError::NotFound));
}

#[test]
fn get_relationships_both_directions() {
    let mut db = fresh_db();
    let a = db.save_diary(None, "A", "a", &tags(&[])).unwrap();
    let b = db.save_diary(None, "B", "b", &tags(&[])).unwrap();
    let c = db.save_diary(None, "C", "c", &tags(&[])).unwrap();
    db.add_relationship("r1", &a, &b, "depends_on").unwrap();
    db.add_relationship("r2", &c, &a, "blocks").unwrap();
    let rels = db.get_relationships(&a).unwrap();
    assert_eq!(rels.len(), 2);
    assert_eq!(rels[0].id, "r1");
    assert_eq!(rels[0].parent_id, a);
    assert_eq!(rels[0].child_id, b);
    assert_eq!(rels[0].relationship_type, "depends_on");
    assert_eq!(rels[1].id, "r2");
    assert_eq!(db.get_relationships(&b).unwrap().len(), 1);
}

#[test]
fn relationship_request_validation() {
    let mut db = fresh_db();
    let p = db.save_diary(None, "P", "p", &tags(&[])).unwrap();
    let c = db.save_diary(None, "C", "c", &tags(&[])).unwrap();
    assert_eq!(
        add_relationship_request(&mut db, None, None, None),
        Err("Empty relationship parameters - operation aborted".to_string())
    );
    assert_eq!(
        add_relationship_request(&mut db, None, Some(c.clone()), None),
        Err("Parent ID is required".to_string())
    );
    assert_eq!(
        add_relationship_request(&mut db, Some(p.clone()), None, None),
        Err("Child ID is required".to_string())
    );
    assert_eq!(
        add_relationship_request(&mut db, Some("".to_string()), Some(c.clone()), None),
        Err("Parent ID is required".to_string())
    );
    assert_eq!(
        add_relationship_request(&mut db, Some(p.clone()), Some("".to_string()), None),
        Err("Child ID is required".to_string())
    );
    // the kind defaults to depends_on
    let rid = add_relationship_request(&mut db, Some(p.clone()), Some(c.clone()), None).unwrap();
    let rels = db.get_relationships(&p).unwrap();
    assert_eq!(rels.len(), 1);
    assert_eq!(rels[0].id, rid);
    assert_eq!(rels[0].relationship_type, "depends_on");
}

#[test]
fn minted_ids_are_canonical_uuids() {
    let mut db = fresh_db();
    let a = db.save_diary(None, "A", "a", &tags(&[])).unwrap();
    let b = db.save_diary(None, "B", "b", &tags(&[])).unwrap();
    assert_ne!(a, b);
    assert_eq!(a.len(), 36);
    assert_eq!(b.len(), 36);
    assert!(!db.get_diary(&a).unwrap().created_at.is_empty());
}

fn entry(id: &str, at: &str, envelope: &str) -> EntryRow {
    EntryRow {
        id: id.to_string(),
        title: format!("title-{}", id),
        body_envelope: envelope.to_string(),
        created_at: at.to_string(),
        updated_at: at.to_string(),
    }
}

#[test]
fn from_rows_accepts_well_formed_tables() {
    let key = generate_key();
    let env = Crypto::new(key).encrypt("the body").unwrap();
    let entries = vec![
        entry("e2", "2024-02-01T00:00:00+00:00", &env),
        entry("e1", "2024-01-01T00:00:00+00:00", &env),
    ];
    let tags = vec![Tag { id: "t1".to_string(), name: "work".to_string() }];
    let taggings = vec![Tagging { diary_id: "e1".to_string(), tag_id: "t1".to_string() }];
    let rels = vec![Relationship {
        id: "r1".to_string(),
        parent_id: "e1".to_string(),
        child_id: "e2".to_string(),
        relationship_type: "depends_on".to_string(),
        created_at: "2024-02-02T00:00:00+00:00".to_string(),
    }];
    let db = DiaryDB::from_rows(key, entries, tags, taggings, rels).unwrap();
    let listed = db.list_diaries().unwrap();
    assert_eq!(listed.len(), 2);
    assert_eq!(listed[0].id, "e2");
    assert_eq!(listed[0].content, "the body");
    assert_eq!(listed[1].tags, vec!["work".to_string()]);
}

#[test]
fn from_rows_rejects_bad_tables() {
    let key = generate_key();
    let env = Crypto::new(key).encrypt("b").unwrap();
    // duplicate entry identifiers
    let dup = vec![
        entry("e1", "2024-02-01T00:00:00+00:00", &env),
        entry("e1", "2024-01-01T00:00:00+00:00", &env),
    ];
    assert_eq!(
        DiaryDB::from_rows(key, dup, vec![], vec![], vec![]).err(),
        Some(StoreError::Conflict)
    );
    // a tagging referencing a missing entry
    let tags = vec![Tag { id: "t1".to_string(), name: "work".to_string() }];
    let orphan = vec![Tagging { diary_id: "ghost".to_string(), tag_id: "t1".to_string() }];
    assert_eq!(
        DiaryDB::from_rows(key, vec![], tags, orphan, vec![]).err(),
        Some(StoreError::Conflict)
    );
    // entries out of newest-first order
    let unsorted = vec![
        entry("e1", "2024-01-01T00:00:00+00:00", &env),
        entry("e2", "2024-02-01T00:00:00+00:00", &env),
    ];
    assert_eq!(
        DiaryDB::from_rows(key, unsorted, vec![], vec![], vec![]).err(),
        Some(StoreError::Conflict)
    );
}

#[test]
fn unparseable_timestamp_falls_back_to_now() {
    let key = generate_key();
    let env = Crypto::new(key).encrypt("b").unwrap();
    let rows = vec![EntryRow {
        id: "e1".to_string(),
        title: "t".to_string(),
        body_envelope: env,
        created_at: "not-a-timestamp".to_string(),
        updated_at: "2024-01-01T00:00:00+00:00".to_string(),
    }];
    let db = DiaryDB::from_rows(key, rows, vec![], vec![], vec![]).unwrap();
    let got = db.get_diary("e1").unwrap();
    // the corrupt value is replaced by the current instant
    assert_ne!(got.created_at, "not-a-timestamp");
    assert!(!got.created_at.is_empty());
    // a parseable one is forwarded verbatim
    assert_eq!(got.updated_at, "2024-01-01T00:00:00+00:00");
    // the row at rest is untouched by the read
    let listed = db.list_diaries().unwrap();
    assert_ne!(listed[0].created_at, "not-a-timestamp");
}
