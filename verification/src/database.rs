//! The database: a registry of uniquely named collections bound to the file
//! path used for persistence.

use vstd::prelude::*;

use crate::collection::{docs_view, Collection, CollectionView};
use crate::document::Doc;

verus! {

/// A named-by-filename registry of collections.
#[derive(Debug)]
pub struct Database {
    filename: String,
    collections: Vec<Collection>,
}

/// The mathematical shape of a [`Database`].
#[verifier::ext_equal]
pub struct DatabaseView {
    pub filename: Seq<char>,
    pub collections: Seq<CollectionView>,
}

/// The shapes of a sequence of collections, in order.
pub open spec fn cols_view(s: Seq<Collection>) -> Seq<CollectionView> {
    Seq::new(s.len(), |i: int| s[i]@)
}

impl View for Database {
    type V = DatabaseView;

    closed spec fn view(&self) -> DatabaseView {
        DatabaseView { filename: self.filename@, collections: cols_view(self.collections@) }
    }
}

/// No two collections share a name.
pub open spec fn names_unique(cs: Seq<CollectionView>) -> bool {
    forall|i: int, j: int| 0 <= i < j < cs.len() ==> cs[i].name != cs[j].name
}

/// Index of the first collection named `name`, or `cs.len()` if none is.
pub open spec fn col_idx(cs: Seq<CollectionView>, name: Seq<char>) -> int
    decreases cs.len(),
{
    if cs.len() == 0 {
        0
    } else if cs[0].name == name {
        0
    } else {
        1 + col_idx(cs.drop_first(), name)
    }
}

/// `col_idx` is the first index carrying the name, and lies within the
/// sequence exactly when the name occurs at all.
pub proof fn lemma_col_idx(cs: Seq<CollectionView>, name: Seq<char>)
    ensures
        0 <= col_idx(cs, name) <= cs.len(),
        col_idx(cs, name) < cs.len() ==> cs[col_idx(cs, name)].name == name,
        forall|j: int| 0 <= j < col_idx(cs, name) ==> cs[j].name != name,
        (exists|j: int| 0 <= j < cs.len() && cs[j].name == name) ==> col_idx(cs, name) < cs.len(),
    decreases cs.len(),
{
    if cs.len() == 0 {
    } else if cs[0].name == name {
    } else {
        let rest = cs.drop_first();
        lemma_col_idx(rest, name);
        assert forall|j: int| 0 <= j < col_idx(cs, name) implies cs[j].name != name by {
            if j > 0 {
                assert(cs[j] == rest[j - 1]);
            }
        }
        if exists|j: int| 0 <= j < cs.len() && cs[j].name == name {
            let j = choose|j: int| 0 <= j < cs.len() && cs[j].name == name;
            assert(j > 0);
            assert(rest[j - 1].name == name);
        }
    }
}

impl Database {
    /// Every collection keeps its count invariant and no two share a name.
    pub open spec fn wf(&self) -> bool {
        &&& forall|i: int| 0 <= i < self.spec_collections()@.len()
            ==> (#[trigger] self.spec_collections()@[i]).wf()
        &&& names_unique(self@.collections)
    }

    /// The underlying collections; visible only to contracts of this crate.
    pub closed spec fn spec_collections(&self) -> Vec<Collection> {
        self.collections
    }

    /// A database bound to `filename`, holding `tables`.
    pub fn new(filename: String, tables: Vec<Collection>) -> (r: Database)
        requires
            forall|i: int| 0 <= i < tables@.len() ==> (#[trigger] tables@[i]).wf(),
            names_unique(cols_view(tables@)),
        ensures
            r@.filename == filename@,
            r@.collections == cols_view(tables@),
            r.wf(),
    {
        Database { filename, collections: tables }
    }

    /// The file path this database persists to.
    pub fn get_filename(&self) -> (r: String)
        ensures
            r@ == self@.filename,
    {
        self.filename.clone()
    }

    /// Read-only view of the collections, in registration order.
    pub fn get_collections(&self) -> (r: &Vec<Collection>)
        ensures
            cols_view(r@) == self@.collections,
            self.wf() ==> forall|i: int| 0 <= i < r@.len() ==> (#[trigger] r@[i]).wf(),
    {
        proof {
            if self.wf() {
                assert forall|i: int| 0 <= i < self.collections@.len() implies (
                #[trigger] self.collections@[i]).wf() by {
                    assert(self.collections@[i] == self.spec_collections()@[i]);
                }
            }
        }
        &self.collections
    }

    /// The first collection named `name`, if any.
    #[verifier::loop_isolation(false)]
    pub fn find_collection(&self, name: &String) -> (r: Option<&Collection>)
        ensures
            match r {
                Some(c) => {
                    &&& col_idx(self@.collections, name@) < self@.collections.len()
                    &&& c@ == self@.collections[col_idx(self@.collections, name@)]
                    &&& c@.name == name@
                    &&& (self.wf() ==> c.wf())
                },
                None => forall|j: int| 0 <= j < self@.collections.len()
                    ==> (#[trigger] self@.collections[j]).name != name@,
            },
    {
        let ghost cs = self@.collections;
        let n = self.collections.len();
        let mut i: usize = 0;
        while i < n
            invariant
                0 <= i <= n,
                n == self.collections@.len(),
                forall|j: int| 0 <= j < i ==> (#[trigger] cs[j]).name != name@,
            decreases n - i,
        {
            if self.collections[i].get_name_ref().eq(name) {
                proof {
                    assert(cs[i as int].name == name@);
                    lemma_col_idx(cs, name@);
                    assert(col_idx(cs, name@) == i);
                    if self.wf() {
                        assert((self.spec_collections()@[i as int]).wf());
                        assert(self.collections@[i as int].wf());
                    }
                }
                return Some(&self.collections[i]);
            }
            i += 1;
        }
        None
    }

    /// Register `table`, unless a collection of the same name already
    /// exists: the one place the name-uniqueness invariant is enforced.
    /// Returns whether the collection was added.
    pub fn add_collection(&mut self, table: Collection) -> (added: bool)
        requires
            old(self).wf(),
            table.wf(),
        ensures
            final(self).wf(),
            final(self)@.filename == old(self)@.filename,
            added == (forall|j: int| 0 <= j < old(self)@.collections.len()
                ==> (#[trigger] old(self)@.collections[j]).name != table@.name),
            added ==> final(self)@.collections == old(self)@.collections.push(table@),
            !added ==> final(self)@ == old(self)@,
    {
        let ghost cs = self@.collections;
        let ghost tv = table@;
        let name = table.get_name();
        match self.find_collection(&name) {
            Some(_c) => {
                proof {
                    lemma_col_idx(cs, name@);
                    assert(cs[col_idx(cs, name@)].name == tv.name);
                }
                false
            },
            None => {
                let ghost tbl = table;
                self.collections.push(table);
                proof {
                    assert(self@.collections =~= cs.push(tv));
                    assert(self@ =~= DatabaseView {
                        filename: old(self)@.filename,
                        collections: cs.push(tv),
                    });
                    assert forall|i: int, j: int|
                        0 <= i < j < self@.collections.len() implies (
                    self@.collections[i]).name != (self@.collections[j]).name by {
                        if j == cs.len() as int {
                            assert(cs[i].name != tv.name);
                        } else {
                            assert(self@.collections[i] == cs[i]);
                            assert(self@.collections[j] == cs[j]);
                        }
                    }
                    assert forall|k: int| 0 <= k < self.spec_collections()@.len() implies (
                    #[trigger] self.spec_collections()@[k]).wf() by {
                        if k < cs.len() {
                            assert(self.spec_collections()@[k] == old(
                                self,
                            ).spec_collections()@[k]);
                            assert((old(self).spec_collections()@[k]).wf());
                        } else {
                            assert(self.spec_collections()@[k] == tbl);
                        }
                    }
                }
                true
            },
        }
    }

    /// How many collections are registered.
    pub fn num_collections(&self) -> (n: usize)
        ensures
            n == self@.collections.len(),
    {
        self.collections.len()
    }

    /// Append `doc` to the collection at index `i`.
    pub fn append_at(&mut self, i: usize, doc: Doc)
        requires
            old(self).wf(),
            i < old(self)@.collections.len(),
            old(self)@.collections[i as int].docs.len() < usize::MAX,
        ensures
            final(self).wf(),
            final(self)@.filename == old(self)@.filename,
            final(self)@.collections == old(self)@.collections.update(
                i as int,
                CollectionView {
                    name: old(self)@.collections[i as int].name,
                    docs: old(self)@.collections[i as int].docs.push(doc@),
                },
            ),
    {
        let ghost cs = self@.collections;
        let ghost v = doc@;
        let ghost c0 = self.spec_collections()@;
        proof {
            assert((old(self).spec_collections()@[i as int]).wf());
        }
        let mut c = self.collections.remove(i);
        c.add_to_collection(doc);
        let ghost cv = c;
        self.collections.insert(i, c);
        proof {
            assert(self@.collections =~= cs.update(
                i as int,
                CollectionView { name: cs[i as int].name, docs: cs[i as int].docs.push(v) },
            ));
            assert(names_unique(self@.collections)) by {
                assert forall|p: int, q: int|
                    0 <= p < q < self@.collections.len() implies (
                self@.collections[p]).name != (self@.collections[q]).name by {
                    assert(self@.collections[p].name == cs[p].name);
                    assert(self@.collections[q].name == cs[q].name);
                }
            }
            assert forall|k: int| 0 <= k < self.spec_collections()@.len() implies (
            #[trigger] self.spec_collections()@[k]).wf() by {
                if k == i as int {
                    assert(self.spec_collections()@[k] == cv);
                } else {
                    assert(self.spec_collections()@[k] == c0[k]);
                    assert((old(self).spec_collections()@[k]).wf());
                }
            }
        }
    }

    /// Delete every document matching `query` from the collection at `i`.
    pub fn delete_at(&mut self, i: usize, query: Doc)
        requires
            old(self).wf(),
            i < old(self)@.collections.len(),
        ensures
            final(self).wf(),
            final(self)@.filename == old(self)@.filename,
            final(self)@.collections == old(self)@.collections.update(
                i as int,
                CollectionView {
                    name: old(self)@.collections[i as int].name,
                    docs: old(self)@.collections[i as int].docs.filter(
                        |d: Seq<(Seq<char>, crate::document::ValueView)>| !crate::document::spec_matches(
                            d,
                            query@,
                        ),
                    ),
                },
            ),
    {
        let ghost cs = self@.collections;
        let ghost qv = query@;
        let ghost c0 = self.spec_collections()@;
        proof {
            assert((old(self).spec_collections()@[i as int]).wf());
        }
        let mut c = self.collections.remove(i);
        c.simple_delete(query);
        let ghost cv = c;
        self.collections.insert(i, c);
        proof {
            assert(self@.collections =~= cs.update(
                i as int,
                CollectionView {
                    name: cs[i as int].name,
                    docs: cs[i as int].docs.filter(
                        |d: Seq<(Seq<char>, crate::document::ValueView)>| !crate::document::spec_matches(
                            d,
                            qv,
                        ),
                    ),
                },
            ));
            assert(names_unique(self@.collections)) by {
                assert forall|p: int, q: int|
                    0 <= p < q < self@.collections.len() implies (
                self@.collections[p]).name != (self@.collections[q]).name by {
                    assert(self@.collections[p].name == cs[p].name);
                    assert(self@.collections[q].name == cs[q].name);
                }
            }
            assert forall|k: int| 0 <= k < self.spec_collections()@.len() implies (
            #[trigger] self.spec_collections()@[k]).wf() by {
                if k == i as int {
                    assert(self.spec_collections()@[k] == cv);
                } else {
                    assert(self.spec_collections()@[k] == c0[k]);
                    assert((old(self).spec_collections()@[k]).wf());
                }
            }
        }
    }
}

} // verus!
