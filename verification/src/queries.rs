//! Preparation and execution of the individual operations: create, insert,
//! find, delete and peek.

use vstd::prelude::*;

use crate::collection::{docs_view, Collection, CollectionView};
use crate::database::{col_idx, lemma_col_idx, Database};
use crate::document::{spec_matches, Doc, ValueView};
use crate::statement::{
    join_range, strings_view, PrepareResult, Statement, StatementType, StatementView,
};
use crate::TABLE_MAX_DOCUMENTS;

verus! {

/// Whether some collection carries `name`.
pub open spec fn name_exists(cs: Seq<CollectionView>, name: Seq<char>) -> bool {
    exists|j: int| 0 <= j < cs.len() && (#[trigger] cs[j]).name == name
}

/// The names of the collections, in registration order.
pub open spec fn col_names(cs: Seq<CollectionView>) -> Seq<Seq<char>> {
    Seq::new(cs.len(), |i: int| cs[i].name)
}

/// The payload document a statement carries: the attached row, or the empty
/// document when none was attached.
pub open spec fn spec_row(st: StatementView) -> Seq<(Seq<char>, ValueView)> {
    match st.row_to_insert {
        Some(d) => d,
        None => Seq::empty(),
    }
}

impl Database {
    /// Index of the first collection named `name`, if any is.
    #[verifier::loop_isolation(false)]
    pub fn find_index(&self, name: &String) -> (r: Option<usize>)
        ensures
            match r {
                Some(i) => {
                    &&& i == col_idx(self@.collections, name@)
                    &&& i < self@.collections.len()
                    &&& self@.collections[i as int].name == name@
                    &&& name_exists(self@.collections, name@)
                },
                None => !name_exists(self@.collections, name@),
            },
    {
        let ghost cs = self@.collections;
        let cols = self.get_collections();
        let n = cols.len();
        let mut i: usize = 0;
        while i < n
            invariant
                0 <= i <= n,
                n == cols@.len(),
                forall|j: int| 0 <= j < i ==> (#[trigger] cs[j]).name != name@,
            decreases n - i,
        {
            if cols[i].get_name_ref().eq(name) {
                proof {
                    assert(cs[i as int].name == name@);
                    lemma_col_idx(cs, name@);
                    assert(col_idx(cs, name@) == i);
                }
                return Some(i);
            }
            proof {
                assert(cs[i as int] == cols@[i as int]@);
            }
            i += 1;
        }
        None
    }
}

/// Resolve `collection_name` against the database: record it in the
/// statement when the collection exists, and say so either way.
pub fn get_collection(
    statement: &mut Statement,
    database: &Database,
    collection_name: &String,
) -> (r: crate::collection::CollectionResult)
    ensures
        ({
            let cs = database@.collections;
            &&& (name_exists(cs, collection_name@)
                ==> r == crate::collection::CollectionResult::CollectionSuccess
                && final(statement)@ == (StatementView {
                collection: collection_name@,
                ..old(statement)@
            }))
            &&& (!name_exists(cs, collection_name@)
                ==> r == crate::collection::CollectionResult::CollectionDoesntExist
                && final(statement)@ == old(statement)@)
        }),
{
    match database.find_index(collection_name) {
        Some(_i) => {
            statement.set_collection(collection_name.clone());
            crate::collection::CollectionResult::CollectionSuccess
        },
        None => crate::collection::CollectionResult::CollectionDoesntExist,
    }
}

/// Validate an `insert` line: the target collection must exist and a payload
/// must follow; on success the statement carries the operation, the target
/// and the payload text, reassembled for the external payload parser.
pub fn prepare_insert(tokens: &Vec<String>, statement: &mut Statement, database: &Database) -> (r:
    PrepareResult)
    ensures
        ({
            let t = strings_view(tokens@);
            let cs = database@.collections;
            &&& (t.len() < 2 ==> r == PrepareResult::PrepareMissingCollection && final(statement)@
                == old(statement)@)
            &&& (t.len() >= 2 && !name_exists(cs, t[1]) ==> r
                == PrepareResult::PrepareCollectionDoesntExist && final(statement)@ == old(statement)@)
            &&& (t.len() == 2 && name_exists(cs, t[1]) ==> r == PrepareResult::PrepareSyntaxError
                && final(statement)@ == old(statement)@)
            &&& (t.len() >= 3 && name_exists(cs, t[1]) ==> r == PrepareResult::PrepareSuccess
                && final(statement)@ == (StatementView {
                x_type: StatementType::StatementInsert,
                collection: t[1],
                payload_text: Some(join_range(t, 2, t.len() as int)),
                ..old(statement)@
            }))
        }),
{
    if tokens.len() < 2 {
        return PrepareResult::PrepareMissingCollection;
    }
    if database.find_index(&tokens[1]).is_none() {
        return PrepareResult::PrepareCollectionDoesntExist;
    }
    if tokens.len() < 3 {
        return PrepareResult::PrepareSyntaxError;
    }
    statement.set_type(StatementType::StatementInsert);
    statement.set_collection(tokens[1].clone());
    let payload = crate::statement::join_tokens(tokens, 2);
    statement.set_payload_text(payload);
    PrepareResult::PrepareSuccess
}

/// Validate a `find` or `delete` line: the target collection must exist; a
/// payload is optional, an absent one meaning the empty query.
fn prepare_query(
    tokens: &Vec<String>,
    statement: &mut Statement,
    database: &Database,
    op: StatementType,
) -> (r: PrepareResult)
    ensures
        ({
            let t = strings_view(tokens@);
            let cs = database@.collections;
            &&& (t.len() < 2 ==> r == PrepareResult::PrepareMissingCollection && final(statement)@
                == old(statement)@)
            &&& (t.len() >= 2 && !name_exists(cs, t[1]) ==> r
                == PrepareResult::PrepareCollectionDoesntExist && final(statement)@ == old(statement)@)
            &&& (t.len() >= 2 && name_exists(cs, t[1]) ==> r == PrepareResult::PrepareSuccess
                && final(statement)@ == (StatementView {
                x_type: op,
                collection: t[1],
                payload_text: if t.len() >= 3 {
                    Some(join_range(t, 2, t.len() as int))
                } else {
                    old(statement)@.payload_text
                },
                ..old(statement)@
            }))
        }),
{
    if tokens.len() < 2 {
        return PrepareResult::PrepareMissingCollection;
    }
    if database.find_index(&tokens[1]).is_none() {
        return PrepareResult::PrepareCollectionDoesntExist;
    }
    statement.set_type(op);
    statement.set_collection(tokens[1].clone());
    if tokens.len() >= 3 {
        let payload = crate::statement::join_tokens(tokens, 2);
        statement.set_payload_text(payload);
    }
    PrepareResult::PrepareSuccess
}

/// Validate a `find` line; see [`prepare_query`].
pub fn prepare_find(tokens: &Vec<String>, statement: &mut Statement, database: &Database) -> (r:
    PrepareResult)
    ensures
        ({
            let t = strings_view(tokens@);
            let cs = database@.collections;
            &&& (t.len() < 2 ==> r == PrepareResult::PrepareMissingCollection && final(statement)@
                == old(statement)@)
            &&& (t.len() >= 2 && !name_exists(cs, t[1]) ==> r
                == PrepareResult::PrepareCollectionDoesntExist && final(statement)@ == old(statement)@)
            &&& (t.len() >= 2 && name_exists(cs, t[1]) ==> r == PrepareResult::PrepareSuccess
                && final(statement)@ == (StatementView {
                x_type: StatementType::StatementFind,
                collection: t[1],
                payload_text: if t.len() >= 3 {
                    Some(join_range(t, 2, t.len() as int))
                } else {
                    old(statement)@.payload_text
                },
                ..old(statement)@
            }))
        }),
{
    prepare_query(tokens, statement, database, StatementType::StatementFind)
}

/// Validate a `delete` line; see [`prepare_query`].
pub fn prepare_delete(tokens: &Vec<String>, statement: &mut Statement, database: &Database) -> (r:
    PrepareResult)
    ensures
        ({
            let t = strings_view(tokens@);
            let cs = database@.collections;
            &&& (t.len() < 2 ==> r == PrepareResult::PrepareMissingCollection && final(statement)@
                == old(statement)@)
            &&& (t.len() >= 2 && !name_exists(cs, t[1]) ==> r
                == PrepareResult::PrepareCollectionDoesntExist && final(statement)@ == old(statement)@)
            &&& (t.len() >= 2 && name_exists(cs, t[1]) ==> r == PrepareResult::PrepareSuccess
                && final(statement)@ == (StatementView {
                x_type: StatementType::StatementDelete,
                collection: t[1],
                payload_text: if t.len() >= 3 {
                    Some(join_range(t, 2, t.len() as int))
                } else {
                    old(statement)@.payload_text
                },
                ..old(statement)@
            }))
        }),
{
    prepare_query(tokens, statement, database, StatementType::StatementDelete)
}

/// Validate a `create` line: only the new collection's name is needed;
/// whether it is fresh is decided at execution.
pub fn prepare_create(tokens: &Vec<String>, statement: &mut Statement) -> (r: PrepareResult)
    ensures
        ({
            let t = strings_view(tokens@);
            &&& (t.len() < 2 ==> r == PrepareResult::PrepareMissingCollection && final(statement)@
                == old(statement)@)
            &&& (t.len() >= 2 ==> r == PrepareResult::PrepareSuccess && final(statement)@
                == (StatementView {
                x_type: StatementType::StatementCreate,
                collection_name: t[1],
                ..old(statement)@
            }))
        }),
{
    if tokens.len() < 2 {
        return PrepareResult::PrepareMissingCollection;
    }
    statement.set_type(StatementType::StatementCreate);
    statement.set_collection_name(tokens[1].clone());
    PrepareResult::PrepareSuccess
}

use crate::statement::ExecuteResult;

/// Execute `create`: reject a duplicate name and leave the database as it
/// was; otherwise register a fresh, empty collection under the name.
pub fn execute_create(statement: Statement, database: &mut Database) -> (r: ExecuteResult)
    requires
        old(database).wf(),
    ensures
        final(database).wf(),
        final(database)@.filename == old(database)@.filename,
        ({
            let cs = old(database)@.collections;
            let name = statement@.collection_name;
            &&& (name_exists(cs, name) ==> r == ExecuteResult::ExecuteCollectionAlreadyExists
                && final(database)@ == old(database)@)
            &&& (!name_exists(cs, name) ==> r == ExecuteResult::ExecuteSuccess && final(database)@.collections == cs.push(
                CollectionView { name: name, docs: Seq::empty() },
            ))
        }),
{
    let collection = Collection::new(statement.get_collection_name());
    if database.add_collection(collection) {
        ExecuteResult::ExecuteSuccess
    } else {
        ExecuteResult::ExecuteCollectionAlreadyExists
    }
}

/// Execute `insert`: locate the target, refuse to grow it past the capacity
/// bound, else append the payload document.
pub fn execute_insert(statement: Statement, database: &mut Database) -> (r: ExecuteResult)
    requires
        old(database).wf(),
    ensures
        final(database).wf(),
        final(database)@.filename == old(database)@.filename,
        ({
            let cs = old(database)@.collections;
            let name = statement@.collection;
            let i = col_idx(cs, name);
            &&& (!name_exists(cs, name) ==> r == ExecuteResult::ExecuteTableUndefined && final(database)@ == old(database)@)
            &&& (name_exists(cs, name) && cs[i].docs.len() >= TABLE_MAX_DOCUMENTS ==> r
                == ExecuteResult::ExecuteTableFull && final(database)@ == old(database)@)
            &&& (name_exists(cs, name) && cs[i].docs.len() < TABLE_MAX_DOCUMENTS ==> r
                == ExecuteResult::ExecuteSuccess && final(database)@.collections == cs.update(
                i,
                CollectionView { name: cs[i].name, docs: cs[i].docs.push(spec_row(statement@)) },
            ))
        }),
{
    let name = statement.get_collection();
    match database.find_index(&name) {
        None => ExecuteResult::ExecuteTableUndefined,
        Some(i) => {
            let count = database.get_collections()[i].get_num_docuents();
            if count >= TABLE_MAX_DOCUMENTS {
                ExecuteResult::ExecuteTableFull
            } else {
                let row = statement.get_row_to_insert();
                database.append_at(i, row);
                ExecuteResult::ExecuteSuccess
            }
        },
    }
}

/// Execute `find`: the documents of the target collection matching the
/// query, in insertion order; the collection itself is untouched.
pub fn execute_find(statement: Statement, database: &Database) -> (r: (ExecuteResult, Vec<Doc>))
    requires
        database.wf(),
    ensures
        ({
            let cs = database@.collections;
            let name = statement@.collection;
            let i = col_idx(cs, name);
            &&& (!name_exists(cs, name) ==> r.0 == ExecuteResult::ExecuteTableUndefined
                && r.1@.len() == 0)
            &&& (name_exists(cs, name) ==> r.0 == ExecuteResult::ExecuteSuccess && docs_view(r.1@)
                == cs[i].docs.filter(
                |d: Seq<(Seq<char>, ValueView)>| spec_matches(d, spec_row(statement@)),
            ))
        }),
{
    let name = statement.get_collection();
    match database.find_index(&name) {
        None => (ExecuteResult::ExecuteTableUndefined, Vec::new()),
        Some(i) => {
            let query = statement.get_row_to_insert();
            let found = database.get_collections()[i].simple_search(query);
            (ExecuteResult::ExecuteSuccess, found)
        },
    }
}

/// Execute `delete`: remove every document of the target collection that
/// matches the query, keeping the remainder in order.
pub fn execute_delete(statement: Statement, database: &mut Database) -> (r: ExecuteResult)
    requires
        old(database).wf(),
    ensures
        final(database).wf(),
        final(database)@.filename == old(database)@.filename,
        ({
            let cs = old(database)@.collections;
            let name = statement@.collection;
            let i = col_idx(cs, name);
            &&& (!name_exists(cs, name) ==> r == ExecuteResult::ExecuteTableUndefined && final(database)@ == old(database)@)
            &&& (name_exists(cs, name) ==> r == ExecuteResult::ExecuteSuccess && final(database)@.collections == cs.update(
                i,
                CollectionView {
                    name: cs[i].name,
                    docs: cs[i].docs.filter(
                        |d: Seq<(Seq<char>, ValueView)>| !spec_matches(d, spec_row(statement@)),
                    ),
                },
            ))
        }),
{
    let name = statement.get_collection();
    match database.find_index(&name) {
        None => ExecuteResult::ExecuteTableUndefined,
        Some(i) => {
            let query = statement.get_row_to_insert();
            database.delete_at(i, query);
            ExecuteResult::ExecuteSuccess
        },
    }
}

/// Execute `peek`: the names of all collections, in registration order.
#[verifier::loop_isolation(false)]
pub fn execute_peek(database: &Database) -> (r: (ExecuteResult, Vec<String>))
    ensures
        r.0 == ExecuteResult::ExecuteSuccess,
        strings_view(r.1@) == col_names(database@.collections),
{
    let cols = database.get_collections();
    let n = cols.len();
    let mut names: Vec<String> = Vec::new();
    let mut i: usize = 0;
    while i < n
        invariant
            0 <= i <= n,
            n == cols@.len(),
            names@.len() == i,
            forall|j: int| 0 <= j < i ==> (#[trigger] names@[j])@ == database@.collections[j].name,
        decreases n - i,
    {
        let name = cols[i].get_name();
        names.push(name);
        proof {
            assert(cols@[i as int]@ == database@.collections[i as int]);
        }
        i += 1;
    }
    proof {
        assert(strings_view(names@) =~= col_names(database@.collections));
    }
    (ExecuteResult::ExecuteSuccess, names)
}

} // verus!
