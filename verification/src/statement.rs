//! Statements: parsed user intents, the tokenizer for the command grammar,
//! statement preparation and the execution dispatcher.

use vstd::prelude::*;
use vstd::string::StrSliceExecFns;
use vstd::string::StringExecFns;

use crate::database::Database;
use crate::document::{Doc, ValueView};

verus! {

/// The operation a statement asks for.
#[derive(Clone, Copy, Debug, PartialEq, Eq, Structural)]
pub enum StatementType {
    StatementUninitialized,
    StatementFind,
    StatementInsert,
    StatementCreate,
    StatementPeek,
    StatementCommit,
    StatementDelete,
}

/// Outcome of executing a prepared statement.
#[derive(Clone, Copy, Debug, PartialEq, Eq, Structural)]
pub enum ExecuteResult {
    ExecuteSuccess,
    ExecuteTableFull,
    ExecuteFailed,
    ExecuteTableUndefined,
    ExecuteCollectionAlreadyExists,
    ExecuteCantSaveDatabase,
}

/// Outcome of preparing a raw input line.
#[derive(Clone, Copy, Debug, PartialEq, Eq, Structural)]
pub enum PrepareResult {
    PrepareSuccess,
    PrepareUnrecognizedStatement,
    PrepareSyntaxError,
    PrepareCollectionDoesntExist,
    PrepareMissingCollection,
    PrepareCantParseJson,
}

/// A parsed user intent: one per input line.
pub struct Statement {
    x_type: StatementType,
    row_to_insert: Option<Doc>,
    collection: String,
    collection_name: String,
    payload_text: Option<String>,
}

/// The mathematical shape of a [`Statement`].
#[verifier::ext_equal]
pub struct StatementView {
    pub x_type: StatementType,
    pub row_to_insert: Option<Seq<(Seq<char>, ValueView)>>,
    pub collection: Seq<char>,
    pub collection_name: Seq<char>,
    pub payload_text: Option<Seq<char>>,
}

impl View for Statement {
    type V = StatementView;

    closed spec fn view(&self) -> StatementView {
        StatementView {
            x_type: self.x_type,
            row_to_insert: match self.row_to_insert {
                Some(d) => Some(d@),
                None => None,
            },
            collection: self.collection@,
            collection_name: self.collection_name@,
            payload_text: match self.payload_text {
                Some(s) => Some(s@),
                None => None,
            },
        }
    }
}

impl Statement {
    /// A blank statement, not yet ready for execution.
    pub fn new() -> (r: Statement)
        ensures
            r@.x_type == StatementType::StatementUninitialized,
            r@.row_to_insert is None,
            r@.collection.len() == 0,
            r@.collection_name.len() == 0,
            r@.payload_text is None,
    {
        Statement {
            x_type: StatementType::StatementUninitialized,
            row_to_insert: None,
            collection: String::new(),
            collection_name: String::new(),
            payload_text: None,
        }
    }

    /// Set the operation.
    pub fn set_type(&mut self, t: StatementType)
        ensures
            final(self)@ == (StatementView { x_type: t, ..old(self)@ }),
    {
        self.x_type = t;
    }

    /// The operation.
    pub fn get_type(&self) -> (t: StatementType)
        ensures
            t == self@.x_type,
    {
        self.x_type
    }

    /// The resolved target collection name.
    pub fn get_collection(&self) -> (r: String)
        ensures
            r@ == self@.collection,
    {
        self.collection.clone()
    }

    /// Record the resolved target collection name.
    pub fn set_collection(&mut self, collection: String)
        ensures
            final(self)@ == (StatementView { collection: collection@, ..old(self)@ }),
    {
        self.collection = collection;
    }

    /// The name a `create` statement will give the new collection.
    pub fn get_collection_name(&self) -> (r: String)
        ensures
            r@ == self@.collection_name,
    {
        self.collection_name.clone()
    }

    /// Record the name a `create` statement will give the new collection.
    pub fn set_collection_name(&mut self, collection_name: String)
        ensures
            final(self)@ == (StatementView { collection_name: collection_name@, ..old(self)@ }),
    {
        self.collection_name = collection_name;
    }

    /// The payload document: the row to insert, or the query to run; an
    /// empty document when none was supplied.
    pub fn get_row_to_insert(&self) -> (r: Doc)
        ensures
            match self@.row_to_insert {
                Some(d) => r@ == d,
                None => r@ == Seq::<(Seq<char>, ValueView)>::empty(),
            },
    {
        match &self.row_to_insert {
            Some(doc) => doc.clone(),
            None => Doc::new(),
        }
    }

    /// Attach the payload document.
    pub fn set_row_to_insert(&mut self, row: Doc)
        ensures
            final(self)@ == (StatementView { row_to_insert: Some(row@), ..old(self)@ }),
    {
        self.row_to_insert = Some(row);
    }

    /// The raw payload text that still awaits parsing, if any.
    pub fn get_payload_text(&self) -> (r: Option<&String>)
        ensures
            match r {
                Some(s) => self@.payload_text == Some(s@),
                None => self@.payload_text is None,
            },
    {
        self.payload_text.as_ref()
    }

    /// Record the raw payload text for the external parser.
    pub fn set_payload_text(&mut self, text: String)
        ensures
            final(self)@ == (StatementView { payload_text: Some(text@), ..old(self)@ }),
    {
        self.payload_text = Some(text);
    }
}

/// Length of the leading run of non-space characters.
pub open spec fn non_space_prefix(s: Seq<char>) -> int
    decreases s.len(),
{
    if s.len() == 0 || s[0] == ' ' {
        0
    } else {
        1 + non_space_prefix(s.subrange(1, s.len() as int))
    }
}

/// `non_space_prefix` is the first index holding a space, or the length.
pub proof fn lemma_non_space_prefix(s: Seq<char>)
    ensures
        0 <= non_space_prefix(s) <= s.len(),
        non_space_prefix(s) < s.len() ==> s[non_space_prefix(s)] == ' ',
        forall|j: int| 0 <= j < non_space_prefix(s) ==> s[j] != ' ',
    decreases s.len(),
{
    if s.len() == 0 || s[0] == ' ' {
    } else {
        let rest = s.subrange(1, s.len() as int);
        lemma_non_space_prefix(rest);
        assert forall|j: int| 0 <= j < non_space_prefix(s) implies s[j] != ' ' by {
            if j > 0 {
                assert(s[j] == rest[j - 1]);
            }
        }
    }
}

/// The whitespace-separated tokens of a line, in order, without empties.
pub open spec fn spec_tokens(s: Seq<char>) -> Seq<Seq<char>>
    decreases s.len(),
{
    if s.len() == 0 {
        Seq::empty()
    } else if s[0] == ' ' {
        spec_tokens(s.subrange(1, s.len() as int))
    } else {
        let p = non_space_prefix_clipped(s);
        seq![s.subrange(0, p)] + spec_tokens(s.subrange(p, s.len() as int))
    }
}

/// `non_space_prefix`, clamped into `1 ..= s.len()` so that `spec_tokens`
/// visibly terminates; the clamp never fires on the branch that uses it.
pub open spec fn non_space_prefix_clipped(s: Seq<char>) -> int {
    let p = non_space_prefix(s);
    if p < 1 {
        1
    } else if p > s.len() {
        s.len() as int
    } else {
        p
    }
}

/// The views of a vector of strings, in order.
pub open spec fn strings_view(s: Seq<String>) -> Seq<Seq<char>> {
    Seq::new(s.len(), |i: int| s[i]@)
}

/// Split a line into its space-separated tokens, dropping empty ones.
#[verifier::loop_isolation(false)]
pub fn tokenize(s: &str) -> (r: Vec<String>)
    ensures
        strings_view(r@) == spec_tokens(s@),
    decreases s@.len(),
{
    let n = s.unicode_len();
    if n == 0 {
        let r: Vec<String> = Vec::new();
        proof {
            assert(strings_view(r@) =~= spec_tokens(s@));
        }
        return r;
    }
    if s.get_char(0) == ' ' {
        let rest = s.substring_char(1, n);
        let r = tokenize(rest);
        proof {
            assert(rest@ == s@.subrange(1, s@.len() as int));
        }
        return r;
    }
    proof {
        lemma_non_space_prefix(s@);
    }
    let mut j: usize = 1;
    while j < n && s.get_char(j) != ' '
        invariant
            1 <= j <= n,
            forall|k: int| 0 <= k < j ==> s@[k] != ' ',
        decreases n - j,
    {
        j += 1;
    }
    proof {
        assert(non_space_prefix(s@) == j) by {
            lemma_non_space_prefix(s@);
            if non_space_prefix(s@) < j {
                assert(s@[non_space_prefix(s@)] == ' ');
            }
            if non_space_prefix(s@) > j {
                assert(j < s@.len());
                assert(s@[j as int] == ' ');
            }
        }
        assert(non_space_prefix_clipped(s@) == j);
    }
    let tok = String::from_str(s.substring_char(0, j));
    let rest = s.substring_char(j, n);
    let mut r = tokenize(rest);
    r.insert(0, tok);
    proof {
        let p = j as int;
        assert(rest@ == s@.subrange(p, s@.len() as int));
        assert(strings_view(r@) =~= seq![s@.subrange(0, p)] + spec_tokens(rest@));
    }
    r
}

/// The concatenation of `toks[lo .. hi]`, in order, with nothing between.
pub open spec fn join_range(toks: Seq<Seq<char>>, lo: int, hi: int) -> Seq<char>
    decreases hi - lo,
{
    if lo >= hi {
        Seq::empty()
    } else {
        toks[lo] + join_range(toks, lo + 1, hi)
    }
}

/// Concatenate the tokens from index `from` on, with nothing between: how
/// a payload is reassembled from its whitespace-split pieces.
#[verifier::loop_isolation(false)]
pub fn join_tokens(tokens: &Vec<String>, from: usize) -> (r: String)
    requires
        from <= tokens@.len(),
    ensures
        r@ == join_range(strings_view(tokens@), from as int, tokens@.len() as int),
{
    let ghost t = strings_view(tokens@);
    let n = tokens.len();
    let mut acc = String::new();
    let mut i: usize = from;
    while i < n
        invariant
            from <= i <= n,
            acc@ + join_range(t, i as int, n as int) == join_range(t, from as int, n as int),
        decreases n - i,
    {
        let ghost acc0 = acc@;
        acc.append(tokens[i].as_str());
        proof {
            assert(acc@ =~= acc0 + t[i as int]);
            assert(acc0 + t[i as int] + join_range(t, i + 1, n as int) =~= acc0 + join_range(
                t,
                i as int,
                n as int,
            ));
        }
        i += 1;
    }
    proof {
        assert(acc@ + join_range(t, n as int, n as int) =~= acc@);
    }
    acc
}

/// Whether `t` spells exactly the word `w`.
pub fn is_word(t: &String, w: &str) -> (r: bool)
    ensures
        r == (t@ == w@),
{
    let ws = String::from_str(w);
    t.eq(&ws)
}

/// What preparing a line must answer, given its tokens and the collections
/// of the database: which result code the grammar and the existence checks
/// yield.
pub open spec fn spec_prepare_result(
    toks: Seq<Seq<char>>,
    cs: Seq<crate::collection::CollectionView>,
) -> PrepareResult {
    if toks.len() == 0 {
        PrepareResult::PrepareUnrecognizedStatement
    } else if toks[0] == "insert"@ {
        if toks.len() < 2 {
            PrepareResult::PrepareMissingCollection
        } else if !crate::queries::name_exists(cs, toks[1]) {
            PrepareResult::PrepareCollectionDoesntExist
        } else if toks.len() < 3 {
            PrepareResult::PrepareSyntaxError
        } else {
            PrepareResult::PrepareSuccess
        }
    } else if toks[0] == "find"@ || toks[0] == "delete"@ {
        if toks.len() < 2 {
            PrepareResult::PrepareMissingCollection
        } else if !crate::queries::name_exists(cs, toks[1]) {
            PrepareResult::PrepareCollectionDoesntExist
        } else {
            PrepareResult::PrepareSuccess
        }
    } else if toks[0] == "create"@ {
        if toks.len() < 2 {
            PrepareResult::PrepareMissingCollection
        } else {
            PrepareResult::PrepareSuccess
        }
    } else if toks[0] == "peek"@ || toks[0] == "commit"@ {
        PrepareResult::PrepareSuccess
    } else {
        PrepareResult::PrepareUnrecognizedStatement
    }
}

/// The statement a successfully prepared line leaves behind, given its
/// tokens and the statement as it was handed in.
pub open spec fn spec_prepared_statement(
    toks: Seq<Seq<char>>,
    st0: StatementView,
) -> StatementView {
    if toks.len() == 0 {
        st0
    } else if toks[0] == "insert"@ {
        StatementView {
            x_type: StatementType::StatementInsert,
            collection: toks[1],
            payload_text: Some(join_range(toks, 2, toks.len() as int)),
            ..st0
        }
    } else if toks[0] == "find"@ || toks[0] == "delete"@ {
        StatementView {
            x_type: if toks[0] == "find"@ {
                StatementType::StatementFind
            } else {
                StatementType::StatementDelete
            },
            collection: toks[1],
            payload_text: if toks.len() >= 3 {
                Some(join_range(toks, 2, toks.len() as int))
            } else {
                st0.payload_text
            },
            ..st0
        }
    } else if toks[0] == "create"@ {
        StatementView {
            x_type: StatementType::StatementCreate,
            collection_name: toks[1],
            ..st0
        }
    } else if toks[0] == "peek"@ {
        StatementView { x_type: StatementType::StatementPeek, ..st0 }
    } else if toks[0] == "commit"@ {
        StatementView { x_type: StatementType::StatementCommit, ..st0 }
    } else {
        st0
    }
}

/// Prepare a raw input line against the database: tokenize it, resolve the
/// operation, check that the target collection exists where the grammar
/// demands one, and fill in the statement.  A payload, where the grammar
/// carries one, is left as reassembled text for the external parser; see
/// [`complete_prepare`].
pub fn prepare_statement(input: &str, statement: &mut Statement, database: &Database) -> (r:
    PrepareResult)
    ensures
        r == spec_prepare_result(spec_tokens(input@), database@.collections),
        r == PrepareResult::PrepareSuccess ==> final(statement)@ == spec_prepared_statement(
            spec_tokens(input@),
            old(statement)@,
        ),
        r != PrepareResult::PrepareSuccess ==> final(statement)@ == old(statement)@,
{
    let tokens = tokenize(input);
    if tokens.len() == 0 {
        return PrepareResult::PrepareUnrecognizedStatement;
    }
    if is_word(&tokens[0], "insert") {
        return crate::queries::prepare_insert(&tokens, statement, database);
    }
    if is_word(&tokens[0], "find") {
        return crate::queries::prepare_find(&tokens, statement, database);
    }
    if is_word(&tokens[0], "delete") {
        return crate::queries::prepare_delete(&tokens, statement, database);
    }
    if is_word(&tokens[0], "create") {
        return crate::queries::prepare_create(&tokens, statement);
    }
    if is_word(&tokens[0], "peek") {
        statement.set_type(StatementType::StatementPeek);
        return PrepareResult::PrepareSuccess;
    }
    if is_word(&tokens[0], "commit") {
        statement.set_type(StatementType::StatementCommit);
        return PrepareResult::PrepareSuccess;
    }
    PrepareResult::PrepareUnrecognizedStatement
}

/// Finish preparation with the outcome of the external payload parse: store
/// the document it produced, or report that the payload text cannot be
/// parsed.  The caller hands in `None` exactly when the parser failed.
pub fn complete_prepare(statement: &mut Statement, parsed: Option<Doc>) -> (r: PrepareResult)
    ensures
        match parsed {
            Some(d) => r == PrepareResult::PrepareSuccess && final(statement)@ == (StatementView {
                row_to_insert: Some(d@),
                ..old(statement)@
            }),
            None => r == PrepareResult::PrepareCantParseJson && final(statement)@ == old(
                statement,
            )@,
        },
{
    match parsed {
        Some(d) => {
            statement.set_row_to_insert(d);
            PrepareResult::PrepareSuccess
        },
        None => PrepareResult::PrepareCantParseJson,
    }
}


/// What an executed statement emitted: documents found, names listed, or
/// the binary image a commit produced for the embedding program to write.
pub struct ExecOutput {
    /// The documents a `find` emitted, in order.
    pub found: Vec<Doc>,
    /// The collection names a `peek` emitted, in order.
    pub names: Vec<String>,
    /// The binary image a `commit` produced.
    pub image: Option<Vec<u8>>,
}

/// Execute a prepared statement against the database and report the result
/// code together with whatever the operation emitted.
pub fn execute_statement(statement: Statement, database: &mut Database) -> (r: (
    ExecuteResult,
    ExecOutput,
))
    requires
        old(database).wf(),
    ensures
        final(database).wf(),
        final(database)@.filename == old(database)@.filename,
        ({
            let cs = old(database)@.collections;
            let st = statement@;
            let i = crate::database::col_idx(cs, st.collection);
            match st.x_type {
                StatementType::StatementCreate => {
                    &&& (crate::queries::name_exists(cs, st.collection_name) ==> r.0
                        == ExecuteResult::ExecuteCollectionAlreadyExists && final(database)@
                        == old(database)@)
                    &&& (!crate::queries::name_exists(cs, st.collection_name) ==> r.0
                        == ExecuteResult::ExecuteSuccess && final(database)@.collections
                        == cs.push(
                        crate::collection::CollectionView {
                            name: st.collection_name,
                            docs: Seq::empty(),
                        },
                    ))
                },
                StatementType::StatementInsert => {
                    &&& (!crate::queries::name_exists(cs, st.collection) ==> r.0
                        == ExecuteResult::ExecuteTableUndefined && final(database)@ == old(
                        database,
                    )@)
                    &&& (crate::queries::name_exists(cs, st.collection) && cs[i].docs.len()
                        >= crate::TABLE_MAX_DOCUMENTS ==> r.0 == ExecuteResult::ExecuteTableFull
                        && final(database)@ == old(database)@)
                    &&& (crate::queries::name_exists(cs, st.collection) && cs[i].docs.len()
                        < crate::TABLE_MAX_DOCUMENTS ==> r.0 == ExecuteResult::ExecuteSuccess
                        && final(database)@.collections == cs.update(
                        i,
                        crate::collection::CollectionView {
                            name: cs[i].name,
                            docs: cs[i].docs.push(crate::queries::spec_row(st)),
                        },
                    ))
                },
                StatementType::StatementFind => {
                    &&& final(database)@ == old(database)@
                    &&& (!crate::queries::name_exists(cs, st.collection) ==> r.0
                        == ExecuteResult::ExecuteTableUndefined && r.1.found@.len() == 0)
                    &&& (crate::queries::name_exists(cs, st.collection) ==> r.0
                        == ExecuteResult::ExecuteSuccess && crate::collection::docs_view(
                        r.1.found@,
                    ) == cs[i].docs.filter(
                        |d: Seq<(Seq<char>, ValueView)>| crate::document::spec_matches(
                            d,
                            crate::queries::spec_row(st),
                        ),
                    ))
                },
                StatementType::StatementDelete => {
                    &&& (!crate::queries::name_exists(cs, st.collection) ==> r.0
                        == ExecuteResult::ExecuteTableUndefined && final(database)@ == old(
                        database,
                    )@)
                    &&& (crate::queries::name_exists(cs, st.collection) ==> r.0
                        == ExecuteResult::ExecuteSuccess && final(database)@.collections
                        == cs.update(
                        i,
                        crate::collection::CollectionView {
                            name: cs[i].name,
                            docs: cs[i].docs.filter(
                                |d: Seq<(Seq<char>, ValueView)>| !crate::document::spec_matches(
                                    d,
                                    crate::queries::spec_row(st),
                                ),
                            ),
                        },
                    ))
                },
                StatementType::StatementPeek => {
                    &&& final(database)@ == old(database)@
                    &&& r.0 == ExecuteResult::ExecuteSuccess
                    &&& strings_view(r.1.names@) == crate::queries::col_names(cs)
                },
                StatementType::StatementCommit => {
                    &&& final(database)@ == old(database)@
                    &&& r.0 == ExecuteResult::ExecuteSuccess
                    &&& match r.1.image {
                        Some(img) => img@ == crate::codec::ser_database(old(database)@),
                        None => false,
                    }
                },
                StatementType::StatementUninitialized => {
                    &&& final(database)@ == old(database)@
                    &&& r.0 == ExecuteResult::ExecuteFailed
                },
            }
        }),
{
    let empty_out = ExecOutput { found: Vec::new(), names: Vec::new(), image: None };
    match statement.get_type() {
        StatementType::StatementFind => {
            let (code, found) = crate::queries::execute_find(statement, database);
            (code, ExecOutput { found, names: Vec::new(), image: None })
        },
        StatementType::StatementInsert => {
            let code = crate::queries::execute_insert(statement, database);
            (code, empty_out)
        },
        StatementType::StatementCreate => {
            let code = crate::queries::execute_create(statement, database);
            (code, empty_out)
        },
        StatementType::StatementPeek => {
            let (code, names) = crate::queries::execute_peek(database);
            (code, ExecOutput { found: Vec::new(), names, image: None })
        },
        StatementType::StatementCommit => {
            let image = crate::codec::encode_database(database);
            (
                ExecuteResult::ExecuteSuccess,
                ExecOutput { found: Vec::new(), names: Vec::new(), image: Some(image) },
            )
        },
        StatementType::StatementDelete => {
            let code = crate::queries::execute_delete(statement, database);
            (code, empty_out)
        },
        StatementType::StatementUninitialized => (ExecuteResult::ExecuteFailed, empty_out),
    }
}

/// Map the outcome of writing the committed image to the result code; the
/// write itself is the embedding program's to perform.
pub fn commit_result(saved: bool) -> (r: ExecuteResult)
    ensures
        saved ==> r == ExecuteResult::ExecuteSuccess,
        !saved ==> r == ExecuteResult::ExecuteCantSaveDatabase,
{
    if saved {
        ExecuteResult::ExecuteSuccess
    } else {
        ExecuteResult::ExecuteCantSaveDatabase
    }
}

} // verus!
