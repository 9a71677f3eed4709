//! Collections: named, ordered sequences of documents with a maintained
//! count, searched and pruned with conjunctive equality queries.

use vstd::prelude::*;

use crate::document::{spec_matches, Doc, ValueView};

verus! {

/// Outcome of resolving a collection name against the database.
#[derive(Clone, Copy, Debug, PartialEq, Eq, Structural)]
pub enum CollectionResult {
    CollectionSuccess,
    CollectionDoesntExist,
}

/// A named, append-mostly ordered sequence of documents plus a maintained
/// count.
#[derive(Debug)]
pub struct Collection {
    name: String,
    num_documents: usize,
    documents: Vec<Doc>,
}

/// The mathematical shape of a [`Collection`].
#[verifier::ext_equal]
pub struct CollectionView {
    pub name: Seq<char>,
    pub docs: Seq<Seq<(Seq<char>, ValueView)>>,
}

/// The shapes of a sequence of documents, in order.
pub open spec fn docs_view(s: Seq<Doc>) -> Seq<Seq<(Seq<char>, ValueView)>> {
    Seq::new(s.len(), |i: int| s[i]@)
}

impl View for Collection {
    type V = CollectionView;

    closed spec fn view(&self) -> CollectionView {
        CollectionView { name: self.name@, docs: docs_view(self.documents@) }
    }
}

/// One step of filtering a growing prefix: what `filter` adds when the
/// prefix is extended by one element.
pub proof fn lemma_filter_take_step<A>(s: Seq<A>, pred: spec_fn(A) -> bool, i: int)
    requires
        0 <= i < s.len(),
    ensures
        s.take(i + 1).filter(pred) == if pred(s[i]) {
            s.take(i).filter(pred).push(s[i])
        } else {
            s.take(i).filter(pred)
        },
{
    let t = s.take(i + 1);
    assert(t.drop_last() =~= s.take(i));
    assert(t.last() == s[i]);
    reveal_with_fuel(Seq::filter, 2);
}

impl Collection {
    /// The maintained count agrees with the stored documents.
    pub closed spec fn wf(&self) -> bool {
        self.num_documents == self.documents@.len()
    }

    /// A fresh, empty collection carrying `name`.
    pub fn new(name: String) -> (r: Collection)
        ensures
            r@.name == name@,
            r@.docs == Seq::<Seq<(Seq<char>, ValueView)>>::empty(),
            r.wf(),
    {
        let r = Collection { name, num_documents: 0, documents: Vec::new() };
        proof {
            assert(r@.docs =~= Seq::<Seq<(Seq<char>, ValueView)>>::empty());
        }
        r
    }

    /// The collection's name.
    pub fn get_name(&self) -> (r: String)
        ensures
            r@ == self@.name,
    {
        self.name.clone()
    }

    /// The collection's name, borrowed.
    pub fn get_name_ref(&self) -> (r: &String)
        ensures
            r@ == self@.name,
    {
        &self.name
    }

    /// Assemble a collection directly from its parts; the codec's decoder
    /// uses it to rebuild exactly what was parsed.
    pub(crate) fn from_parts(name: String, documents: Vec<Doc>) -> (r: Collection)
        ensures
            r@.name == name@,
            r@.docs == docs_view(documents@),
            r.wf(),
    {
        let num_documents = documents.len();
        Collection { name, num_documents, documents }
    }

    /// The maintained document count; equals the number of stored documents.
    pub fn get_num_docuents(&self) -> (n: usize)
        requires
            self.wf(),
        ensures
            n == self@.docs.len(),
    {
        self.num_documents
    }

    /// Append `doc` and bump the count.
    pub fn add_to_collection(&mut self, doc: Doc)
        requires
            old(self).wf(),
            old(self)@.docs.len() < usize::MAX,
        ensures
            final(self).wf(),
            final(self)@.name == old(self)@.name,
            final(self)@.docs == old(self)@.docs.push(doc@),
    {
        let ghost v = doc@;
        self.documents.push(doc);
        self.num_documents += 1;
        proof {
            assert(self@.docs =~= old(self)@.docs.push(v));
        }
    }

    /// Read-only view of the stored documents, in insertion order.
    pub fn get_collection(&self) -> (r: &Vec<Doc>)
        ensures
            docs_view(r@) == self@.docs,
    {
        &self.documents
    }

    /// Owned copies of the documents matching `query`, in insertion order.
    #[verifier::loop_isolation(false)]
    pub fn simple_search(&self, query: Doc) -> (r: Vec<Doc>)
        ensures
            docs_view(r@) == self@.docs.filter(
                |d: Seq<(Seq<char>, ValueView)>| spec_matches(d, query@),
            ),
    {
        let ghost pred = |d: Seq<(Seq<char>, ValueView)>| spec_matches(d, query@);
        let n = self.documents.len();
        let mut out: Vec<Doc> = Vec::new();
        let mut i: usize = 0;
        proof {
            assert(self@.docs.take(0) =~= Seq::<Seq<(Seq<char>, ValueView)>>::empty());
            reveal_with_fuel(Seq::filter, 2);
            assert(docs_view(out@) =~= self@.docs.take(0).filter(pred));
        }
        while i < n
            invariant
                0 <= i <= n,
                docs_view(out@) == self@.docs.take(i as int).filter(pred),
            decreases n - i,
        {
            proof {
                lemma_filter_take_step(self@.docs, pred, i as int);
            }
            if self.documents[i].matches(&query) {
                out.push(self.documents[i].clone());
                proof {
                    assert(docs_view(out@) =~= self@.docs.take(i + 1).filter(pred));
                }
            }
            i += 1;
        }
        proof {
            assert(self@.docs.take(n as int) =~= self@.docs);
        }
        out
    }

    /// Remove, in place, every document matching `query`; the remaining
    /// documents keep their relative order and the count tracks them.
    #[verifier::loop_isolation(false)]
    pub fn simple_delete(&mut self, query: Doc)
        ensures
            final(self).wf(),
            final(self)@.name == old(self)@.name,
            final(self)@.docs == old(self)@.docs.filter(
                |d: Seq<(Seq<char>, ValueView)>| !spec_matches(d, query@),
            ),
    {
        let ghost pred = |d: Seq<(Seq<char>, ValueView)>| !spec_matches(d, query@);
        let n = self.documents.len();
        let mut kept: Vec<Doc> = Vec::new();
        let mut i: usize = 0;
        proof {
            assert(self@.docs.take(0) =~= Seq::<Seq<(Seq<char>, ValueView)>>::empty());
            reveal_with_fuel(Seq::filter, 2);
            assert(docs_view(kept@) =~= self@.docs.take(0).filter(pred));
        }
        while i < n
            invariant
                0 <= i <= n,
                n == self.documents@.len(),
                self@ == old(self)@,
                docs_view(kept@) == self@.docs.take(i as int).filter(pred),
            decreases n - i,
        {
            proof {
                lemma_filter_take_step(self@.docs, pred, i as int);
            }
            if !self.documents[i].matches(&query) {
                kept.push(self.documents[i].clone());
                proof {
                    assert(docs_view(kept@) =~= self@.docs.take(i + 1).filter(pred));
                }
            }
            i += 1;
        }
        proof {
            assert(self@.docs.take(n as int) =~= self@.docs);
        }
        self.num_documents = kept.len();
        self.documents = kept;
    }
}

/// Deleting then searching with the same query finds nothing, and what a
/// search found before the delete is exactly what the delete removed: the
/// matching and non-matching documents partition the collection.
pub proof fn lemma_delete_search_symmetry(
    docs: Seq<Seq<(Seq<char>, ValueView)>>,
    q: Seq<(Seq<char>, ValueView)>,
)
    ensures
        docs.filter(|d: Seq<(Seq<char>, ValueView)>| !spec_matches(d, q)).filter(
            |d: Seq<(Seq<char>, ValueView)>| spec_matches(d, q),
        ) == Seq::<Seq<(Seq<char>, ValueView)>>::empty(),
        docs.filter(|d: Seq<(Seq<char>, ValueView)>| spec_matches(d, q)).len() + docs.filter(
            |d: Seq<(Seq<char>, ValueView)>| !spec_matches(d, q),
        ).len() == docs.len(),
    decreases docs.len(),
{
    let keep = |d: Seq<(Seq<char>, ValueView)>| !spec_matches(d, q);
    let hit = |d: Seq<(Seq<char>, ValueView)>| spec_matches(d, q);
    reveal_with_fuel(Seq::filter, 2);
    if docs.len() == 0 {
        assert(docs.filter(keep) =~= Seq::<Seq<(Seq<char>, ValueView)>>::empty());
        assert(docs.filter(keep).filter(hit) =~= Seq::<Seq<(Seq<char>, ValueView)>>::empty());
    } else {
        let prefix = docs.drop_last();
        lemma_delete_search_symmetry(prefix, q);
        if keep(docs.last()) {
            assert(docs.filter(keep) == prefix.filter(keep).push(docs.last()));
            assert(docs.filter(keep).filter(hit) =~= prefix.filter(keep).filter(hit)) by {
                assert(docs.filter(keep).drop_last() =~= prefix.filter(keep));
            }
        }
    }
}

} // verus!
