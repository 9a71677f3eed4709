//! The document data model: schema-less structured values and ordered
//! key/value documents with structural equality.

use vstd::prelude::*;

verus! {

/// A structured, schema-less value: null, boolean, integer, floating-point
/// bit pattern, string, ordered list, or nested document.
#[derive(Debug, PartialEq)]
pub enum Value {
    Null,
    Bool(bool),
    Int(i64),
    /// An IEEE-754 double carried as its raw bit pattern, so that equality
    /// stays structural (bitwise) and the engine never computes on it.
    Float(u64),
    Str(String),
    Arr(Vec<Value>),
    Obj(Doc),
}

/// The mathematical shape of a [`Value`]: what contracts speak about.
#[verifier::ext_equal]
pub enum ValueView {
    Null,
    Bool(bool),
    Int(i64),
    Float(u64),
    Str(Seq<char>),
    Arr(Seq<ValueView>),
    Obj(Seq<(Seq<char>, ValueView)>),
}

/// An ordered key-to-value mapping with unique keys: the unit stored in and
/// matched against collections.  Immutable once built up; exchanged by clone.
#[derive(Debug, PartialEq)]
pub struct Doc {
    pairs: Vec<(String, Value)>,
}

/// The shape of a value.
pub open spec fn value_view(v: Value) -> ValueView
    decreases v,
{
    match v {
        Value::Null => ValueView::Null,
        Value::Bool(b) => ValueView::Bool(b),
        Value::Int(i) => ValueView::Int(i),
        Value::Float(bits) => ValueView::Float(bits),
        Value::Str(s) => ValueView::Str(s@),
        Value::Arr(items) => ValueView::Arr(values_view(items@)),
        Value::Obj(d) => ValueView::Obj(pairs_view(d.spec_pairs()@)),
    }
}

/// The shapes of a sequence of values, in order.
pub open spec fn values_view(s: Seq<Value>) -> Seq<ValueView>
    decreases s,
{
    if s.len() == 0 {
        Seq::empty()
    } else {
        seq![value_view(s[0])] + values_view(s.subrange(1, s.len() as int))
    }
}

/// The shapes of a sequence of key/value entries, in order.
pub open spec fn pairs_view(s: Seq<(String, Value)>) -> Seq<(Seq<char>, ValueView)>
    decreases s,
{
    if s.len() == 0 {
        Seq::empty()
    } else {
        seq![(s[0].0@, value_view(s[0].1))] + pairs_view(s.subrange(1, s.len() as int))
    }
}

impl View for Value {
    type V = ValueView;

    open spec fn view(&self) -> ValueView {
        value_view(*self)
    }
}

impl View for Doc {
    type V = Seq<(Seq<char>, ValueView)>;

    open spec fn view(&self) -> Seq<(Seq<char>, ValueView)> {
        pairs_view(self.spec_pairs()@)
    }
}

impl Doc {
    /// The underlying entries; visible only to contracts of this crate.
    pub closed spec fn spec_pairs(&self) -> Vec<(String, Value)> {
        self.pairs
    }

    /// The entries, borrowed in order; the codec walks them.
    pub(crate) fn entries(&self) -> (r: &Vec<(String, Value)>)
        ensures
            pairs_view(r@) == self@,
            r@ == self.spec_pairs()@,
    {
        &self.pairs
    }

    /// Assemble a document directly from entries; the codec's decoder uses
    /// it to rebuild exactly what was parsed.
    pub(crate) fn from_pairs(pairs: Vec<(String, Value)>) -> (d: Doc)
        ensures
            d@ == pairs_view(pairs@),
    {
        Doc { pairs }
    }

    /// The key of the `i`-th entry.
    pub fn key_at(&self, i: usize) -> (r: &String)
        requires
            i < self@.len(),
        ensures
            r@ == self@[i as int].0,
    {
        proof {
            lemma_pairs_view(self.pairs@);
        }
        &self.pairs[i].0
    }

    /// The value of the `i`-th entry.
    pub fn value_at(&self, i: usize) -> (r: &Value)
        requires
            i < self@.len(),
        ensures
            r@ == self@[i as int].1,
    {
        proof {
            lemma_pairs_view(self.pairs@);
        }
        &self.pairs[i].1
    }
}

/// `values_view` maps the sequence elementwise.
pub proof fn lemma_values_view(s: Seq<Value>)
    ensures
        values_view(s).len() == s.len(),
        forall|i: int| 0 <= i < s.len() ==> values_view(s)[i] == value_view(s[i]),
    decreases s.len(),
{
    if s.len() > 0 {
        lemma_values_view(s.subrange(1, s.len() as int));
    }
}

/// `pairs_view` maps the sequence elementwise.
pub proof fn lemma_pairs_view(s: Seq<(String, Value)>)
    ensures
        pairs_view(s).len() == s.len(),
        forall|i: int| 0 <= i < s.len()
            ==> pairs_view(s)[i] == (s[i].0@, value_view(s[i].1)),
    decreases s.len(),
{
    if s.len() > 0 {
        lemma_pairs_view(s.subrange(1, s.len() as int));
    }
}

/// Index of the first entry holding key `k`, or `d.len()` if there is none.
pub open spec fn key_idx(d: Seq<(Seq<char>, ValueView)>, k: Seq<char>) -> int
    decreases d.len(),
{
    if d.len() == 0 {
        0
    } else if d[0].0 == k {
        0
    } else {
        1 + key_idx(d.drop_first(), k)
    }
}

/// The value stored under key `k`, if any.
pub open spec fn doc_spec_get(d: Seq<(Seq<char>, ValueView)>, k: Seq<char>) -> Option<ValueView> {
    if key_idx(d, k) < d.len() {
        Some(d[key_idx(d, k)].1)
    } else {
        None
    }
}

/// `key_idx` is the first index holding the key, and lies within the
/// document exactly when the key occurs at all.
pub proof fn lemma_key_idx(d: Seq<(Seq<char>, ValueView)>, k: Seq<char>)
    ensures
        0 <= key_idx(d, k) <= d.len(),
        key_idx(d, k) < d.len() ==> d[key_idx(d, k)].0 == k,
        forall|j: int| 0 <= j < key_idx(d, k) ==> d[j].0 != k,
        (exists|j: int| 0 <= j < d.len() && d[j].0 == k) ==> key_idx(d, k) < d.len(),
    decreases d.len(),
{
    if d.len() == 0 {
    } else if d[0].0 == k {
    } else {
        let rest = d.drop_first();
        lemma_key_idx(rest, k);
        assert forall|j: int| 0 <= j < key_idx(d, k) implies d[j].0 != k by {
            if j > 0 {
                assert(d[j] == rest[j - 1]);
            }
        }
        if exists|j: int| 0 <= j < d.len() && d[j].0 == k {
            let j = choose|j: int| 0 <= j < d.len() && d[j].0 == k;
            assert(j > 0);
            assert(rest[j - 1].0 == k);
        }
    }
}

impl Clone for Value {
    /// Deep copy: the clone has the same mathematical shape as the original.
    #[verifier::loop_isolation(false)]
    fn clone(&self) -> (r: Value)
        ensures
            r@ == self@,
        decreases self,
    {
        match self {
            Value::Null => Value::Null,
            Value::Bool(b) => Value::Bool(*b),
            Value::Int(i) => Value::Int(*i),
            Value::Float(bits) => Value::Float(*bits),
            Value::Str(s) => Value::Str(s.clone()),
            Value::Arr(items) => {
                let n = items.len();
                let mut out: Vec<Value> = Vec::new();
                let mut i: usize = 0;
                while i < n
                    invariant
                        n == items.len(),
                        0 <= i <= n,
                        out@.len() == i,
                        forall|j: int| 0 <= j < i ==> value_view(#[trigger] out@[j])
                            == value_view(items@[j]),
                    decreases n - i,
                {
                    proof {
                        assert(decreases_to!(*self => self->Arr_0@[i as int]));
                    }
                    out.push(items[i].clone());
                    i += 1;
                }
                let r = Value::Arr(out);
                proof {
                    lemma_values_view(out@);
                    lemma_values_view(items@);
                    assert(values_view(out@) =~= values_view(items@));
                }
                r
            },
            Value::Obj(d) => Value::Obj(d.clone()),
        }
    }
}

impl Clone for Doc {
    /// Deep copy: the clone has the same mathematical shape as the original.
    #[verifier::loop_isolation(false)]
    fn clone(&self) -> (r: Doc)
        ensures
            r@ == self@,
        decreases self,
    {
        let n = self.pairs.len();
        let mut pairs: Vec<(String, Value)> = Vec::new();
        let mut i: usize = 0;
        while i < n
            invariant
                n == self.pairs.len(),
                0 <= i <= n,
                pairs@.len() == i,
                forall|j: int| 0 <= j < i ==> (#[trigger] pairs@[j]).0@ == self.pairs@[j].0@
                    && value_view(pairs@[j].1) == value_view(self.pairs@[j].1),
            decreases n - i,
        {
            proof {
                assert(decreases_to!(*self => self.pairs@[i as int].1));
            }
            let k = self.pairs[i].0.clone();
            let v = self.pairs[i].1.clone();
            pairs.push((k, v));
            i += 1;
        }
        let r = Doc { pairs };
        proof {
            lemma_pairs_view(pairs@);
            lemma_pairs_view(self.pairs@);
            assert(r@ =~= self@);
        }
        r
    }
}

impl Doc {
    /// A fresh, empty document.
    pub fn new() -> (d: Doc)
        ensures
            d@ == Seq::<(Seq<char>, ValueView)>::empty(),
    {
        let d = Doc { pairs: Vec::new() };
        proof {
            assert(d@ =~= Seq::<(Seq<char>, ValueView)>::empty());
        }
        d
    }

    /// Number of keys held.
    pub fn len(&self) -> (n: usize)
        ensures
            n == self@.len(),
    {
        proof {
            lemma_pairs_view(self.pairs@);
        }
        self.pairs.len()
    }

    /// The value stored under `key`, if any.
    #[verifier::loop_isolation(false)]
    pub fn get(&self, key: &String) -> (r: Option<&Value>)
        ensures
            match r {
                Some(v) => doc_spec_get(self@, key@) == Some(v@),
                None => doc_spec_get(self@, key@) is None,
            },
    {
        proof {
            lemma_pairs_view(self.pairs@);
        }
        let n = self.pairs.len();
        let mut i: usize = 0;
        while i < n
            invariant
                n == self.pairs.len(),
                self@.len() == n,
                forall|j: int| 0 <= j < n ==> self@[j] == (self.pairs@[j].0@, value_view(
                    self.pairs@[j].1,
                )),
                0 <= i <= n,
                forall|j: int| 0 <= j < i ==> self@[j].0 != key@,
            decreases n - i,
        {
            if self.pairs[i].0.eq(key) {
                proof {
                    assert(self@[i as int].0 == key@);
                    lemma_key_idx(self@, key@);
                    assert(key_idx(self@, key@) == i);
                }
                return Some(&self.pairs[i].1);
            }
            proof {
                assert(self@[i as int].0 != key@);
            }
            i += 1;
        }
        proof {
            lemma_key_idx(self@, key@);
        }
        None
    }

    /// Whether `key` occurs in the document.
    pub fn contains_key(&self, key: &String) -> (r: bool)
        ensures
            r == (doc_spec_get(self@, key@) is Some),
    {
        match self.get(key) {
            Some(_) => true,
            None => false,
        }
    }

    /// Store `value` under `key`: replace the value in place when the key is
    /// already present, append a fresh entry otherwise.
    #[verifier::loop_isolation(false)]
    pub fn insert(&mut self, key: String, value: Value)
        ensures
            final(self)@ == spec_doc_insert(old(self)@, key@, value@),
    {
        let ghost d0 = self@;
        proof {
            lemma_pairs_view(self.pairs@);
        }
        let n = self.pairs.len();
        let mut i: usize = 0;
        while i < n
            invariant
                self@ == d0,
                n == self.pairs.len(),
                d0.len() == n,
                forall|j: int| 0 <= j < n ==> d0[j] == (self.pairs@[j].0@, value_view(
                    self.pairs@[j].1,
                )),
                0 <= i <= n,
                forall|j: int| 0 <= j < i ==> d0[j].0 != key@,
            decreases n - i,
        {
            if self.pairs[i].0.eq(&key) {
                proof {
                    assert(d0[i as int].0 == key@);
                    lemma_key_idx(d0, key@);
                    assert(key_idx(d0, key@) == i);
                }
                self.pairs.remove(i);
                self.pairs.insert(i, (key, value));
                proof {
                    lemma_pairs_view(self.pairs@);
                    assert(self@ =~= d0.update(key_idx(d0, key@), (key@, value@)));
                }
                return;
            }
            i += 1;
        }
        proof {
            lemma_key_idx(d0, key@);
            assert(key_idx(d0, key@) == d0.len());
        }
        self.pairs.push((key, value));
        proof {
            lemma_pairs_view(self.pairs@);
            assert(self@ =~= d0.push((key@, value@)));
        }
    }
}

/// Structural (deep) equality of two values.
#[verifier::loop_isolation(false)]
pub fn value_eq(a: &Value, b: &Value) -> (r: bool)
    ensures
        r == (a@ == b@),
    decreases a,
{
    match (a, b) {
        (Value::Null, Value::Null) => true,
        (Value::Bool(x), Value::Bool(y)) => *x == *y,
        (Value::Int(x), Value::Int(y)) => *x == *y,
        (Value::Float(x), Value::Float(y)) => *x == *y,
        (Value::Str(x), Value::Str(y)) => x.eq(y),
        (Value::Arr(x), Value::Arr(y)) => {
            proof {
                lemma_values_view(x@);
                lemma_values_view(y@);
            }
            let n = x.len();
            if n != y.len() {
                return false;
            }
            let mut i: usize = 0;
            while i < n
                invariant
                    0 <= i <= n,
                    forall|j: int| 0 <= j < i ==> value_view(x@[j]) == value_view(y@[j]),
                decreases n - i,
            {
                proof {
                    assert(decreases_to!(*a => a->Arr_0@[i as int]));
                }
                if !value_eq(&x[i], &y[i]) {
                    proof {
                        assert(values_view(x@)[i as int] != values_view(y@)[i as int]);
                    }
                    return false;
                }
                i += 1;
            }
            proof {
                assert(values_view(x@) =~= values_view(y@));
            }
            true
        },
        (Value::Obj(x), Value::Obj(y)) => {
            proof {
                assert(decreases_to!(*a => a->Obj_0));
            }
            doc_eq(x, y)
        },
        _ => false,
    }
}

/// Structural (deep) equality of two documents: same keys in the same order,
/// with structurally equal values.
#[verifier::loop_isolation(false)]
pub fn doc_eq(a: &Doc, b: &Doc) -> (r: bool)
    ensures
        r == (a@ == b@),
    decreases a,
{
    proof {
        lemma_pairs_view(a.pairs@);
        lemma_pairs_view(b.pairs@);
    }
    let n = a.pairs.len();
    if n != b.pairs.len() {
        return false;
    }
    let mut i: usize = 0;
    while i < n
        invariant
            0 <= i <= n,
            forall|j: int| 0 <= j < i ==> a@[j] == b@[j],
        decreases n - i,
    {
        if !a.pairs[i].0.eq(&b.pairs[i].0) {
            proof {
                assert(a@[i as int].0 != b@[i as int].0);
            }
            return false;
        }
        proof {
            assert(decreases_to!(*a => a.pairs@[i as int].1));
        }
        if !value_eq(&a.pairs[i].1, &b.pairs[i].1) {
            proof {
                assert(a@[i as int].1 != b@[i as int].1);
            }
            return false;
        }
        i += 1;
    }
    proof {
        assert(a@ =~= b@);
    }
    true
}

/// A query matches a document when every key of the query occurs in the
/// document with a structurally equal value; the empty query matches all.
pub open spec fn spec_matches(
    d: Seq<(Seq<char>, ValueView)>,
    q: Seq<(Seq<char>, ValueView)>,
) -> bool {
    forall|i: int| 0 <= i < q.len() ==> doc_spec_get(d, (#[trigger] q[i]).0) == Some(q[i].1)
}

impl Doc {
    /// Whether this document satisfies `query`: every key of the query is
    /// present here with a structurally equal value.
    #[verifier::loop_isolation(false)]
    pub fn matches(&self, query: &Doc) -> (r: bool)
        ensures
            r == spec_matches(self@, query@),
    {
        proof {
            lemma_pairs_view(query.pairs@);
        }
        let n = query.pairs.len();
        let mut i: usize = 0;
        while i < n
            invariant
                0 <= i <= n,
                forall|j: int| 0 <= j < i ==> doc_spec_get(self@, (#[trigger] query@[j]).0)
                    == Some(query@[j].1),
            decreases n - i,
        {
            match self.get(&query.pairs[i].0) {
                None => {
                    proof {
                        assert(doc_spec_get(self@, query@[i as int].0) is None);
                    }
                    return false;
                },
                Some(v) => {
                    if !value_eq(v, &query.pairs[i].1) {
                        proof {
                            assert(doc_spec_get(self@, query@[i as int].0) == Some(v@));
                            assert(v@ != query@[i as int].1);
                        }
                        return false;
                    }
                },
            }
            i += 1;
        }
        true
    }
}

/// Inserting `(k, v)`: replace the first entry holding `k`, or append.
pub open spec fn spec_doc_insert(
    d: Seq<(Seq<char>, ValueView)>,
    k: Seq<char>,
    v: ValueView,
) -> Seq<(Seq<char>, ValueView)> {
    if key_idx(d, k) < d.len() {
        d.update(key_idx(d, k), (k, v))
    } else {
        d.push((k, v))
    }
}


/// The empty query matches every document; a query holding a key that the
/// document lacks, or binds to a different value, matches it not.
pub proof fn lemma_matching_correctness(
    d: Seq<(Seq<char>, ValueView)>,
    q: Seq<(Seq<char>, ValueView)>,
)
    ensures
        spec_matches(d, Seq::empty()),
        (exists|i: int| 0 <= i < q.len() && doc_spec_get(d, (#[trigger] q[i]).0) != Some(q[i].1))
            ==> !spec_matches(d, q),
{
}

} // verus!
