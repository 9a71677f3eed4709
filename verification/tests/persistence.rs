//! The binary codec: round trips, the load fallback, and malformed images.

use docl::codec::{db_open, decode_database, encode_database, push_le8, read_le};
use docl::statement::{commit_result, ExecuteResult};
use docl::collection::Collection;
use docl::database::Database;
use docl::document::{doc_eq, Doc, Value};

fn rich_db() -> Database {
    let mut users = Collection::new(String::from("users"));
    let mut d1 = Doc::new();
    d1.insert(String::from("name"), Value::Str(String::from("a")));
    d1.insert(String::from("age"), Value::Int(1));
    d1.insert(String::from("tags"), Value::Arr(vec![
        Value::Str(String::from("x")),
        Value::Null,
        Value::Bool(false),
        Value::Float((2.5f64).to_bits()),
    ]));
    let mut nested = Doc::new();
    nested.insert(String::from("city"), Value::Str(String::from("rome")));
    d1.insert(String::from("addr"), Value::Obj(nested));
    users.add_to_collection(d1);

    let mut d2 = Doc::new();
    d2.insert(String::from("empty"), Value::Str(String::new()));
    users.add_to_collection(d2);

    let logs = Collection::new(String::from("logs"));

    let mut db = Database::new(String::from("./db.docl"), Vec::new());
    assert!(db.add_collection(users));
    assert!(db.add_collection(logs));
    db
}

#[test]
fn le_bytes_round_trip() {
    for n in [0u64, 1, 255, 256, 65535, 1 << 40, u64::MAX] {
        let mut out: Vec<u8> = Vec::new();
        push_le8(&mut out, n);
        assert_eq!(out.len(), 8);
        assert_eq!(read_le(&out, 0, 8), n);
    }
    let mut out: Vec<u8> = Vec::new();
    push_le8(&mut out, 0x0123456789abcdef);
    assert_eq!(out, vec![0xef, 0xcd, 0xab, 0x89, 0x67, 0x45, 0x23, 0x01]);
}

#[test]
fn database_round_trip() {
    let db = rich_db();
    let image = encode_database(&db);
    let back = decode_database(&image).expect("the image decodes");
    assert_eq!(back.get_filename(), "./db.docl");
    assert_eq!(back.num_collections(), 2);
    let cols = back.get_collections();
    let orig = db.get_collections();
    for i in 0..2 {
        assert_eq!(cols[i].get_name(), orig[i].get_name());
        assert_eq!(cols[i].get_num_docuents(), orig[i].get_num_docuents());
        let docs = cols[i].get_collection();
        let odocs = orig[i].get_collection();
        for j in 0..docs.len() {
            assert!(doc_eq(&docs[j], &odocs[j]));
        }
    }
}

#[test]
fn empty_database_round_trip() {
    let db = Database::new(String::from("x.bin"), Vec::new());
    let image = encode_database(&db);
    let back = decode_database(&image).expect("the image decodes");
    assert_eq!(back.get_filename(), "x.bin");
    assert_eq!(back.num_collections(), 0);
}

#[test]
fn unicode_strings_round_trip() {
    let mut c = Collection::new(String::from("notes"));
    let mut d = Doc::new();
    d.insert(String::from("text"), Value::Str(String::from("héllo wörld ✓")));
    c.add_to_collection(d);
    let mut db = Database::new(String::from("./db.docl"), Vec::new());
    assert!(db.add_collection(c));

    let image = encode_database(&db);
    let back = decode_database(&image).expect("the image decodes");
    let docs = back.get_collections()[0].get_collection();
    let v = docs[0].get(&String::from("text")).expect("text is present");
    assert!(docl::document::value_eq(v, &Value::Str(String::from("héllo wörld ✓"))));
}

#[test]
fn truncated_or_garbage_images_are_refused() {
    assert!(decode_database(&Vec::new()).is_none());
    assert!(decode_database(&vec![1, 2, 3]).is_none());
    let db = rich_db();
    let mut image = encode_database(&db);
    image.pop();
    assert!(decode_database(&image).is_none());
    let db2 = rich_db();
    let mut image2 = encode_database(&db2);
    image2.push(0);
    assert!(decode_database(&image2).is_none());
}

#[test]
fn negative_integers_round_trip() {
    let mut c = Collection::new(String::from("nums"));
    let mut d = Doc::new();
    d.insert(String::from("small"), Value::Int(-5));
    d.insert(String::from("min"), Value::Int(i64::MIN));
    d.insert(String::from("max"), Value::Int(i64::MAX));
    c.add_to_collection(d.clone());
    let mut db = Database::new(String::from("n.bin"), Vec::new());
    assert!(db.add_collection(c));

    let image = encode_database(&db);
    let back = decode_database(&image).expect("the image decodes");
    let docs = back.get_collections()[0].get_collection();
    assert!(doc_eq(&docs[0], &d));
}

#[test]
fn empty_containers_round_trip() {
    let mut c = Collection::new(String::from("odd"));
    let mut d = Doc::new();
    d.insert(String::from("arr"), Value::Arr(Vec::new()));
    d.insert(String::from("obj"), Value::Obj(Doc::new()));
    c.add_to_collection(d.clone());
    c.add_to_collection(Doc::new());
    let mut db = Database::new(String::from("e.bin"), Vec::new());
    assert!(db.add_collection(c));

    let image = encode_database(&db);
    let back = decode_database(&image).expect("the image decodes");
    let docs = back.get_collections()[0].get_collection();
    assert_eq!(docs.len(), 2);
    assert!(doc_eq(&docs[0], &d));
    assert_eq!(docs[1].len(), 0);
}

#[test]
fn open_falls_back_to_a_fresh_database() {
    let db = db_open(String::from("nonexistent-path"), None);
    assert_eq!(db.get_filename(), "nonexistent-path");
    assert_eq!(db.num_collections(), 0);

    let garbage: Vec<u8> = vec![9, 9, 9];
    let db = db_open(String::from("corrupt.bin"), Some(&garbage));
    assert_eq!(db.get_filename(), "corrupt.bin");
    assert_eq!(db.num_collections(), 0);
}

#[test]
fn open_reads_a_saved_image() {
    let saved = rich_db();
    let image = encode_database(&saved);
    let db = db_open(String::from("ignored"), Some(&image));
    assert_eq!(db.get_filename(), "./db.docl");
    assert_eq!(db.num_collections(), 2);
}

#[test]
fn commit_result_maps_write_outcome() {
    assert_eq!(commit_result(true), ExecuteResult::ExecuteSuccess);
    assert_eq!(commit_result(false), ExecuteResult::ExecuteCantSaveDatabase);
}
