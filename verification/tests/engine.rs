//! Preparation, execution, and the engine-level invariants.

use docl::collection::Collection;
use docl::database::Database;
use docl::document::{doc_eq, Doc, Value};
use docl::collection::CollectionResult;
use docl::queries::{execute_delete, execute_find, execute_insert, execute_peek, get_collection};
use docl::statement::{
    complete_prepare, execute_statement, prepare_statement, tokenize, ExecuteResult,
    PrepareResult, Statement, StatementType,
};
use docl::TABLE_MAX_DOCUMENTS;

fn empty_db() -> Database {
    Database::new(String::from("./db.docl"), Vec::new())
}

fn prepare(line: &str, db: &Database) -> (PrepareResult, Statement) {
    let mut st = Statement::new();
    let r = prepare_statement(line, &mut st, db);
    (r, st)
}

fn insert_statement(collection: &str, doc: Doc) -> Statement {
    let mut st = Statement::new();
    st.set_type(StatementType::StatementInsert);
    st.set_collection(String::from(collection));
    st.set_row_to_insert(doc);
    st
}

fn query_statement(t: StatementType, collection: &str, doc: Doc) -> Statement {
    let mut st = Statement::new();
    st.set_type(t);
    st.set_collection(String::from(collection));
    st.set_row_to_insert(doc);
    st
}

fn sample_doc() -> Doc {
    let mut d = Doc::new();
    d.insert(String::from("name"), Value::Str(String::from("a")));
    d.insert(String::from("age"), Value::Int(1));
    d
}

#[test]
fn tokenize_splits_on_spaces_and_drops_empties() {
    let toks = tokenize("  create   users ");
    assert_eq!(toks.len(), 2);
    assert_eq!(toks[0], "create");
    assert_eq!(toks[1], "users");
    assert_eq!(tokenize("").len(), 0);
    assert_eq!(tokenize("   ").len(), 0);
}

#[test]
fn prepare_unrecognized_statement() {
    let db = empty_db();
    let (r, _) = prepare("frobnicate users", &db);
    assert_eq!(r, PrepareResult::PrepareUnrecognizedStatement);
    let (r2, _) = prepare("", &db);
    assert_eq!(r2, PrepareResult::PrepareUnrecognizedStatement);
}

#[test]
fn prepare_create_needs_a_name() {
    let db = empty_db();
    let (r, _) = prepare("create", &db);
    assert_eq!(r, PrepareResult::PrepareMissingCollection);
    let (r2, st) = prepare("create users", &db);
    assert_eq!(r2, PrepareResult::PrepareSuccess);
    assert_eq!(st.get_collection_name(), "users");
    assert_eq!(st.get_type(), StatementType::StatementCreate);
}

#[test]
fn prepare_insert_checks_collection_and_payload() {
    let mut db = empty_db();
    let (r, _) = prepare("insert", &db);
    assert_eq!(r, PrepareResult::PrepareMissingCollection);
    let (r, _) = prepare("insert users {\"a\":1}", &db);
    assert_eq!(r, PrepareResult::PrepareCollectionDoesntExist);

    let (r, st) = prepare("create users", &db);
    assert_eq!(r, PrepareResult::PrepareSuccess);
    let (code, _) = execute_statement(st, &mut db);
    assert_eq!(code, ExecuteResult::ExecuteSuccess);

    let (r, _) = prepare("insert users", &db);
    assert_eq!(r, PrepareResult::PrepareSyntaxError);

    let (r, st) = prepare("insert users {\"a\": 1,  \"b\": 2}", &db);
    assert_eq!(r, PrepareResult::PrepareSuccess);
    assert_eq!(st.get_type(), StatementType::StatementInsert);
    assert_eq!(st.get_collection(), "users");
    let payload = st.get_payload_text().expect("insert carries payload text");
    assert_eq!(payload, "{\"a\":1,\"b\":2}");
}

#[test]
fn prepare_find_and_delete_allow_missing_payload() {
    let mut db = empty_db();
    let (_, st) = prepare("create users", &db);
    execute_statement(st, &mut db);

    let (r, st) = prepare("find users", &db);
    assert_eq!(r, PrepareResult::PrepareSuccess);
    assert_eq!(st.get_type(), StatementType::StatementFind);
    assert!(st.get_payload_text().is_none());

    let (r, st) = prepare("delete users {\"age\":1}", &db);
    assert_eq!(r, PrepareResult::PrepareSuccess);
    assert_eq!(st.get_type(), StatementType::StatementDelete);
    assert_eq!(st.get_payload_text().expect("payload"), "{\"age\":1}");

    let (r, _) = prepare("find ghosts", &db);
    assert_eq!(r, PrepareResult::PrepareCollectionDoesntExist);
}

#[test]
fn complete_prepare_reports_parse_outcome() {
    let mut st = Statement::new();
    assert_eq!(
        complete_prepare(&mut st, Some(sample_doc())),
        PrepareResult::PrepareSuccess
    );
    let mut st2 = Statement::new();
    assert_eq!(complete_prepare(&mut st2, None), PrepareResult::PrepareCantParseJson);
}

#[test]
fn create_twice_yields_already_exists_and_changes_nothing() {
    let mut db = empty_db();
    let (_, st) = prepare("create users", &db);
    let (code, _) = execute_statement(st, &mut db);
    assert_eq!(code, ExecuteResult::ExecuteSuccess);
    assert_eq!(db.num_collections(), 1);

    let (_, st) = prepare("create users", &db);
    let (code, _) = execute_statement(st, &mut db);
    assert_eq!(code, ExecuteResult::ExecuteCollectionAlreadyExists);
    assert_eq!(db.num_collections(), 1);
    assert_eq!(db.get_collections()[0].get_name(), "users");
}

#[test]
fn count_tracks_inserts_and_deletes() {
    let mut c = Collection::new(String::from("users"));
    assert_eq!(c.get_num_docuents(), 0);
    c.add_to_collection(sample_doc());
    c.add_to_collection(sample_doc());
    assert_eq!(c.get_num_docuents(), 2);
    assert_eq!(c.get_collection().len(), c.get_num_docuents());
    let mut q = Doc::new();
    q.insert(String::from("age"), Value::Int(1));
    c.simple_delete(q);
    assert_eq!(c.get_num_docuents(), 0);
    assert_eq!(c.get_collection().len(), 0);
}

#[test]
fn capacity_bound_yields_table_full() {
    let mut db = empty_db();
    let (_, st) = prepare("create tiny", &db);
    execute_statement(st, &mut db);
    let doc = sample_doc();
    for _ in 0..TABLE_MAX_DOCUMENTS {
        let code = execute_insert(insert_statement("tiny", doc.clone()), &mut db);
        assert_eq!(code, ExecuteResult::ExecuteSuccess);
    }
    assert_eq!(db.get_collections()[0].get_num_docuents(), TABLE_MAX_DOCUMENTS);
    let code = execute_insert(insert_statement("tiny", doc), &mut db);
    assert_eq!(code, ExecuteResult::ExecuteTableFull);
    assert_eq!(db.get_collections()[0].get_num_docuents(), TABLE_MAX_DOCUMENTS);
}

#[test]
fn insert_into_unknown_collection_is_undefined() {
    let mut db = empty_db();
    let code = execute_insert(insert_statement("ghosts", sample_doc()), &mut db);
    assert_eq!(code, ExecuteResult::ExecuteTableUndefined);
}

#[test]
fn find_returns_matching_documents_in_order() {
    let mut db = empty_db();
    let (_, st) = prepare("create users", &db);
    execute_statement(st, &mut db);

    let mut young = Doc::new();
    young.insert(String::from("name"), Value::Str(String::from("a")));
    young.insert(String::from("age"), Value::Int(1));
    let mut old = Doc::new();
    old.insert(String::from("name"), Value::Str(String::from("b")));
    old.insert(String::from("age"), Value::Int(9));

    execute_insert(insert_statement("users", young.clone()), &mut db);
    execute_insert(insert_statement("users", old.clone()), &mut db);

    let mut q = Doc::new();
    q.insert(String::from("age"), Value::Int(1));
    let (code, found) = execute_find(
        query_statement(StatementType::StatementFind, "users", q.clone()),
        &db,
    );
    assert_eq!(code, ExecuteResult::ExecuteSuccess);
    assert_eq!(found.len(), 1);
    assert!(doc_eq(&found[0], &young));

    let (code, found) = execute_find(
        query_statement(StatementType::StatementFind, "users", Doc::new()),
        &db,
    );
    assert_eq!(code, ExecuteResult::ExecuteSuccess);
    assert_eq!(found.len(), 2);
    assert!(doc_eq(&found[0], &young));
    assert!(doc_eq(&found[1], &old));
}

#[test]
fn delete_then_search_finds_nothing_and_removes_exactly_the_matches() {
    let mut db = empty_db();
    let (_, st) = prepare("create users", &db);
    execute_statement(st, &mut db);

    let mut hit = Doc::new();
    hit.insert(String::from("age"), Value::Int(1));
    let mut miss = Doc::new();
    miss.insert(String::from("age"), Value::Int(2));

    execute_insert(insert_statement("users", hit.clone()), &mut db);
    execute_insert(insert_statement("users", miss.clone()), &mut db);
    execute_insert(insert_statement("users", hit.clone()), &mut db);

    let mut q = Doc::new();
    q.insert(String::from("age"), Value::Int(1));

    let (_, before) = execute_find(
        query_statement(StatementType::StatementFind, "users", q.clone()),
        &db,
    );
    assert_eq!(before.len(), 2);

    let code = execute_delete(
        query_statement(StatementType::StatementDelete, "users", q.clone()),
        &mut db,
    );
    assert_eq!(code, ExecuteResult::ExecuteSuccess);

    let (_, after) = execute_find(
        query_statement(StatementType::StatementFind, "users", q),
        &db,
    );
    assert_eq!(after.len(), 0);

    let remaining = db.get_collections()[0].get_collection();
    assert_eq!(remaining.len(), 1);
    assert!(doc_eq(&remaining[0], &miss));
}

#[test]
fn peek_lists_collection_names_in_order() {
    let mut db = empty_db();
    for name in ["users", "orders", "logs"] {
        let mut st = Statement::new();
        st.set_type(StatementType::StatementCreate);
        st.set_collection_name(String::from(name));
        let (code, _) = execute_statement(st, &mut db);
        assert_eq!(code, ExecuteResult::ExecuteSuccess);
    }
    let (code, names) = execute_peek(&db);
    assert_eq!(code, ExecuteResult::ExecuteSuccess);
    assert_eq!(names, vec!["users", "orders", "logs"]);
}

#[test]
fn uninitialized_statement_fails() {
    let mut db = empty_db();
    let st = Statement::new();
    let (code, _) = execute_statement(st, &mut db);
    assert_eq!(code, ExecuteResult::ExecuteFailed);
}

#[test]
fn end_to_end_scenario() {
    let mut db = empty_db();

    let (r, st) = prepare("create users", &db);
    assert_eq!(r, PrepareResult::PrepareSuccess);
    let (code, _) = execute_statement(st, &mut db);
    assert_eq!(code, ExecuteResult::ExecuteSuccess);

    let (_, st) = prepare("create users", &db);
    let (code, _) = execute_statement(st, &mut db);
    assert_eq!(code, ExecuteResult::ExecuteCollectionAlreadyExists);

    let (r, mut st) = prepare("insert users {\"name\":\"a\",\"age\":1}", &db);
    assert_eq!(r, PrepareResult::PrepareSuccess);
    assert_eq!(st.get_payload_text().expect("payload"), "{\"name\":\"a\",\"age\":1}");
    assert_eq!(complete_prepare(&mut st, Some(sample_doc())), PrepareResult::PrepareSuccess);
    let (code, _) = execute_statement(st, &mut db);
    assert_eq!(code, ExecuteResult::ExecuteSuccess);
    assert_eq!(db.get_collections()[0].get_num_docuents(), 1);

    let (r, mut st) = prepare("find users {\"age\":1}", &db);
    assert_eq!(r, PrepareResult::PrepareSuccess);
    let mut q = Doc::new();
    q.insert(String::from("age"), Value::Int(1));
    complete_prepare(&mut st, Some(q.clone()));
    let (code, out) = execute_statement(st, &mut db);
    assert_eq!(code, ExecuteResult::ExecuteSuccess);
    assert_eq!(out.found.len(), 1);
    assert!(doc_eq(&out.found[0], &sample_doc()));

    let (r, mut st) = prepare("delete users {\"age\":1}", &db);
    assert_eq!(r, PrepareResult::PrepareSuccess);
    complete_prepare(&mut st, Some(q));
    let (code, _) = execute_statement(st, &mut db);
    assert_eq!(code, ExecuteResult::ExecuteSuccess);
    assert_eq!(db.get_collections()[0].get_num_docuents(), 0);

    let (r, st) = prepare("commit", &db);
    assert_eq!(r, PrepareResult::PrepareSuccess);
    let (code, out) = execute_statement(st, &mut db);
    assert_eq!(code, ExecuteResult::ExecuteSuccess);
    let image = out.image.expect("commit yields the database image");
    let reloaded = docl::codec::decode_database(&image).expect("the image decodes");
    assert_eq!(reloaded.num_collections(), 1);
    assert_eq!(reloaded.get_collections()[0].get_name(), "users");
    assert_eq!(reloaded.get_collections()[0].get_num_docuents(), 0);
}

#[test]
fn get_collection_resolves_existing_names() {
    let mut db = empty_db();
    let (_, st) = prepare("create users", &db);
    execute_statement(st, &mut db);

    let mut st = Statement::new();
    let r = get_collection(&mut st, &db, &String::from("users"));
    assert_eq!(r, CollectionResult::CollectionSuccess);
    assert_eq!(st.get_collection(), "users");

    let mut st2 = Statement::new();
    let r = get_collection(&mut st2, &db, &String::from("ghosts"));
    assert_eq!(r, CollectionResult::CollectionDoesntExist);
    assert_eq!(st2.get_collection(), "");
}

#[test]
fn payload_text_concatenates_tokens_without_spaces() {
    let mut db = empty_db();
    let (_, st) = prepare("create users", &db);
    execute_statement(st, &mut db);
    let (r, st) = prepare("insert users {\"name\":   \"a b\" , \"n\": 1}", &db);
    assert_eq!(r, PrepareResult::PrepareSuccess);
    assert_eq!(st.get_payload_text().expect("payload"), "{\"name\":\"ab\",\"n\":1}");
}

#[test]
fn add_collection_rejects_duplicates_centrally() {
    let mut db = empty_db();
    assert!(db.add_collection(Collection::new(String::from("users"))));
    assert!(!db.add_collection(Collection::new(String::from("users"))));
    assert_eq!(db.num_collections(), 1);
    assert!(db.find_collection(&String::from("users")).is_some());
    assert!(db.find_collection(&String::from("ghosts")).is_none());
}
