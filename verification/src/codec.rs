//! The persistence codec: the whole database as one self-describing binary
//! image, and the decoder that reconstructs it, with a proven round trip.
//!
//! Layout, all multi-byte integers little-endian with eight bytes: a string
//! is its UTF-8 byte length followed by its UTF-8 bytes; a value is a tag
//! byte followed by its payload; a document is its entry count followed by
//! key/value entries; a collection is its name, its document count and its
//! documents; the database is its filename, its collection count and its
//! collections.

use vstd::prelude::*;

use crate::collection::{docs_view, Collection, CollectionView};
use crate::database::{cols_view, Database, DatabaseView};
use crate::document::{
    lemma_pairs_view, lemma_values_view, pairs_view, values_view, Doc, Value, ValueView,
};

verus! {

broadcast use vstd::utf8::encode_utf8_valid_utf8, vstd::utf8::encode_utf8_decode_utf8;

/// 256 to the `k`-th power: the number of values `k` bytes can carry.
pub open spec fn pow256(k: nat) -> nat
    decreases k,
{
    if k == 0 {
        1
    } else {
        256 * pow256((k - 1) as nat)
    }
}

/// The `k` little-endian bytes of `n`.
pub open spec fn le_bytes(n: nat, k: nat) -> Seq<u8>
    decreases k,
{
    if k == 0 {
        Seq::empty()
    } else {
        seq![(n % 256) as u8] + le_bytes(n / 256, (k - 1) as nat)
    }
}

/// The value a little-endian byte sequence carries.
pub open spec fn le_val(b: Seq<u8>) -> nat
    decreases b.len(),
{
    if b.len() == 0 {
        0
    } else {
        (b[0] + 256 * le_val(b.subrange(1, b.len() as int))) as nat
    }
}

/// `le_bytes` always yields `k` bytes, and decoding them recovers `n`.
pub proof fn lemma_le_roundtrip(n: nat, k: nat)
    requires
        n < pow256(k),
    ensures
        le_bytes(n, k).len() == k,
        le_val(le_bytes(n, k)) == n,
    decreases k,
{
    if k > 0 {
        assert(n / 256 < pow256((k - 1) as nat)) by (nonlinear_arith)
            requires
                n < pow256(k),
                pow256(k) == 256 * pow256((k - 1) as nat),
        ;
        lemma_le_roundtrip(n / 256, (k - 1) as nat);
        let b = le_bytes(n, k);
        assert(b.subrange(1, b.len() as int) =~= le_bytes(n / 256, (k - 1) as nat));
    }
}

/// Append the eight little-endian bytes of `n`.
#[verifier::loop_isolation(false)]
pub fn push_le8(out: &mut Vec<u8>, n: u64)
    ensures
        final(out)@ == old(out)@ + le_bytes(n as nat, 8),
{
    let mut x = n;
    let mut k: usize = 0;
    while k < 8
        invariant
            0 <= k <= 8,
            old(out)@ + le_bytes(n as nat, 8) == out@ + le_bytes(x as nat, (8 - k) as nat),
        decreases 8 - k,
    {
        let ghost before = out@;
        out.push((x % 256) as u8);
        proof {
            assert(le_bytes(x as nat, (8 - k) as nat) == seq![(x as nat % 256) as u8] + le_bytes(
                x as nat / 256,
                (8 - (k + 1)) as nat,
            ));
            assert((x % 256) as u8 == (x as nat % 256) as u8);
            assert((x / 256) as nat == x as nat / 256);
            assert(out@ + le_bytes((x / 256) as nat, (8 - (k + 1)) as nat) =~= before + le_bytes(
                x as nat,
                (8 - k) as nat,
            ));
        }
        x = x / 256;
        k += 1;
    }
    proof {
        assert(le_bytes(x as nat, 0) =~= Seq::<u8>::empty());
        assert(out@ + le_bytes(x as nat, 0) =~= out@);
    }
}

/// Read `k` little-endian bytes starting at `pos`.
#[verifier::loop_isolation(false)]
pub fn read_le(bytes: &Vec<u8>, pos: usize, k: usize) -> (r: u64)
    requires
        k <= 8,
        pos + k <= bytes@.len(),
    ensures
        r as nat == le_val(bytes@.subrange(pos as int, pos + k)),
        (r as nat) < pow256(k as nat),
    decreases k,
{
    proof {
        reveal_with_fuel(pow256, 9);
    }
    if k == 0 {
        proof {
            assert(bytes@.subrange(pos as int, pos as int) =~= Seq::<u8>::empty());
        }
        0
    } else {
        let n = bytes.len();
        let lo = bytes[pos];
        let hi = read_le(bytes, pos + 1, k - 1);
        proof {
            assert(hi < pow256(7)) by {
                assert(pow256((k - 1) as nat) <= pow256(7)) by {
                    lemma_pow256_le((k - 1) as nat, 7);
                }
            }
            let b = bytes@.subrange(pos as int, pos + k);
            assert(b.subrange(1, b.len() as int) =~= bytes@.subrange(pos + 1, pos + 1 + (k - 1)));
            assert(b[0] == bytes@[pos as int]);
        }
        lo as u64 + 256 * hi
    }
}

/// `pow256` grows with its exponent.
pub proof fn lemma_pow256_le(a: nat, b: nat)
    requires
        a <= b,
    ensures
        pow256(a) <= pow256(b),
    decreases b,
{
    if a < b {
        lemma_pow256_le(a, (b - 1) as nat);
        assert(pow256(b) == 256 * pow256((b - 1) as nat));
        assert(pow256((b - 1) as nat) <= 256 * pow256((b - 1) as nat)) by (nonlinear_arith)
            requires
                pow256((b - 1) as nat) >= 0,
        ;
    }
}

/// A string is its UTF-8 byte length followed by its UTF-8 bytes.
pub open spec fn ser_str(s: Seq<char>) -> Seq<u8> {
    le_bytes(vstd::utf8::encode_utf8(s).len(), 8) + vstd::utf8::encode_utf8(s)
}

/// A value is a tag byte followed by its payload.
pub open spec fn ser_value(v: ValueView) -> Seq<u8>
    decreases v, 0int,
{
    match v {
        ValueView::Null => seq![0u8],
        ValueView::Bool(b) => seq![1u8, if b { 1u8 } else { 0u8 }],
        ValueView::Int(i) => seq![2u8] + le_bytes((i as u64) as nat, 8),
        ValueView::Float(bits) => seq![3u8] + le_bytes(bits as nat, 8),
        ValueView::Str(s) => seq![4u8] + ser_str(s),
        ValueView::Arr(items) => seq![5u8] + le_bytes(items.len(), 8) + ser_values_from(items, 0),
        ValueView::Obj(pairs) => seq![6u8] + le_bytes(pairs.len(), 8) + ser_pairs_from(pairs, 0),
    }
}

/// The values from index `i` on, serialized one after the other.
pub open spec fn ser_values_from(s: Seq<ValueView>, i: int) -> Seq<u8>
    decreases s, (if i < s.len() { s.len() - i } else { 0int }),
{
    if 0 <= i < s.len() {
        ser_value(s[i]) + ser_values_from(s, i + 1)
    } else {
        Seq::empty()
    }
}

/// The key/value entries from index `i` on, each a string then a value.
pub open spec fn ser_pairs_from(s: Seq<(Seq<char>, ValueView)>, i: int) -> Seq<u8>
    decreases s, (if i < s.len() { s.len() - i } else { 0int }),
{
    if 0 <= i < s.len() {
        ser_str(s[i].0) + ser_value(s[i].1) + ser_pairs_from(s, i + 1)
    } else {
        Seq::empty()
    }
}

/// A document is its entry count followed by its entries.
pub open spec fn ser_doc(d: Seq<(Seq<char>, ValueView)>) -> Seq<u8> {
    le_bytes(d.len(), 8) + ser_pairs_from(d, 0)
}

/// The documents from index `i` on.
pub open spec fn ser_docs_from(ds: Seq<Seq<(Seq<char>, ValueView)>>, i: int) -> Seq<u8>
    decreases (if i < ds.len() { ds.len() - i } else { 0int }),
{
    if 0 <= i < ds.len() {
        ser_doc(ds[i]) + ser_docs_from(ds, i + 1)
    } else {
        Seq::empty()
    }
}

/// A collection is its name, its document count and its documents.
pub open spec fn ser_collection(c: CollectionView) -> Seq<u8> {
    ser_str(c.name) + le_bytes(c.docs.len(), 8) + ser_docs_from(c.docs, 0)
}

/// The collections from index `i` on.
pub open spec fn ser_collections_from(cs: Seq<CollectionView>, i: int) -> Seq<u8>
    decreases (if i < cs.len() { cs.len() - i } else { 0int }),
{
    if 0 <= i < cs.len() {
        ser_collection(cs[i]) + ser_collections_from(cs, i + 1)
    } else {
        Seq::empty()
    }
}

/// The database is its filename, its collection count and its collections.
pub open spec fn ser_database(db: DatabaseView) -> Seq<u8> {
    ser_str(db.filename) + le_bytes(db.collections.len(), 8) + ser_collections_from(
        db.collections,
        0,
    )
}

/// The string's UTF-8 encoding fits the eight-byte length field.
pub open spec fn str_bounded(s: Seq<char>) -> bool {
    vstd::utf8::encode_utf8(s).len() < pow256(8)
}

/// Every length in the value fits its eight-byte field.
pub open spec fn value_bounded(v: ValueView) -> bool
    decreases v,
{
    match v {
        ValueView::Null => true,
        ValueView::Bool(_) => true,
        ValueView::Int(_) => true,
        ValueView::Float(_) => true,
        ValueView::Str(s) => str_bounded(s),
        ValueView::Arr(items) => items.len() < pow256(8) && (forall|i: int|
            0 <= i < items.len() ==> value_bounded(#[trigger] items[i])),
        ValueView::Obj(pairs) => pairs_bounded(pairs),
    }
}

/// Every length in the entries fits its eight-byte field.
pub open spec fn pairs_bounded(pairs: Seq<(Seq<char>, ValueView)>) -> bool
    decreases pairs,
{
    &&& pairs.len() < pow256(8)
    &&& forall|i: int| 0 <= i < pairs.len() ==> str_bounded((#[trigger] pairs[i]).0)
        && value_bounded(pairs[i].1)
}

/// Every length in the documents fits its eight-byte field.
pub open spec fn docs_bounded(ds: Seq<Seq<(Seq<char>, ValueView)>>) -> bool {
    &&& ds.len() < pow256(8)
    &&& forall|i: int| 0 <= i < ds.len() ==> pairs_bounded(#[trigger] ds[i])
}

/// Every length in the collection fits its eight-byte field.
pub open spec fn col_bounded(c: CollectionView) -> bool {
    str_bounded(c.name) && docs_bounded(c.docs)
}

/// Every length in the database fits its eight-byte field.
pub open spec fn db_bounded(db: DatabaseView) -> bool {
    &&& str_bounded(db.filename)
    &&& db.collections.len() < pow256(8)
    &&& forall|i: int| 0 <= i < db.collections.len() ==> col_bounded(#[trigger] db.collections[i])
}

/// Read a string: its length, then its UTF-8 bytes, which must be valid.
pub open spec fn parse_str(b: Seq<u8>) -> Option<(Seq<char>, int)> {
    if b.len() >= 8 {
        let l = le_val(b.subrange(0, 8)) as int;
        if 8 + l <= b.len() && vstd::utf8::valid_utf8(b.subrange(8, 8 + l)) {
            Some((vstd::utf8::decode_utf8(b.subrange(8, 8 + l)), 8 + l))
        } else {
            None
        }
    } else {
        None
    }
}

/// Read one value: a tag byte, then its payload.
pub open spec fn parse_value(b: Seq<u8>) -> Option<(ValueView, int)>
    decreases b.len(), 0int, 0int,
{
    if b.len() == 0 {
        None
    } else if b[0] == 0u8 {
        Some((ValueView::Null, 1))
    } else if b[0] == 1u8 {
        if b.len() >= 2 && (b[1] == 0u8 || b[1] == 1u8) {
            Some((ValueView::Bool(b[1] == 1u8), 2))
        } else {
            None
        }
    } else if b[0] == 2u8 {
        if b.len() >= 9 {
            Some((ValueView::Int((le_val(b.subrange(1, 9)) as u64) as i64), 9))
        } else {
            None
        }
    } else if b[0] == 3u8 {
        if b.len() >= 9 {
            Some((ValueView::Float(le_val(b.subrange(1, 9)) as u64), 9))
        } else {
            None
        }
    } else if b[0] == 4u8 {
        match parse_str(b.subrange(1, b.len() as int)) {
            Some((s, c)) => Some((ValueView::Str(s), 1 + c)),
            None => None,
        }
    } else if b[0] == 5u8 {
        if b.len() >= 9 {
            let n = le_val(b.subrange(1, 9)) as int;
            match parse_values(b.subrange(9, b.len() as int), n) {
                Some((vs, c)) => Some((ValueView::Arr(vs), 9 + c)),
                None => None,
            }
        } else {
            None
        }
    } else if b[0] == 6u8 {
        if b.len() >= 9 {
            let n = le_val(b.subrange(1, 9)) as int;
            match parse_pairs(b.subrange(9, b.len() as int), n) {
                Some((ps, c)) => Some((ValueView::Obj(ps), 9 + c)),
                None => None,
            }
        } else {
            None
        }
    } else {
        None
    }
}

/// Read `n` values, one after the other.
pub open spec fn parse_values(b: Seq<u8>, n: int) -> Option<(Seq<ValueView>, int)>
    decreases b.len(), 1int, (if n > 0 { n } else { 0int }),
{
    if n <= 0 {
        Some((Seq::empty(), 0))
    } else {
        match parse_value(b) {
            Some((v, c)) => if 1 <= c <= b.len() {
                match parse_values(b.subrange(c, b.len() as int), n - 1) {
                    Some((vs, c2)) => Some((seq![v] + vs, c + c2)),
                    None => None,
                }
            } else {
                None
            },
            None => None,
        }
    }
}

/// Read `n` key/value entries, one after the other.
pub open spec fn parse_pairs(b: Seq<u8>, n: int) -> Option<(Seq<(Seq<char>, ValueView)>, int)>
    decreases b.len(), 1int, (if n > 0 { n } else { 0int }),
{
    if n <= 0 {
        Some((Seq::empty(), 0))
    } else {
        match parse_str(b) {
            Some((k, c1)) => if 1 <= c1 <= b.len() {
                match parse_value(b.subrange(c1, b.len() as int)) {
                    Some((v, c2)) => if 1 <= c2 <= b.len() - c1 {
                        match parse_pairs(b.subrange(c1 + c2, b.len() as int), n - 1) {
                            Some((ps, c3)) => Some((seq![(k, v)] + ps, c1 + c2 + c3)),
                            None => None,
                        }
                    } else {
                        None
                    },
                    None => None,
                }
            } else {
                None
            },
            None => None,
        }
    }
}

/// Read a document: its entry count, then its entries.
pub open spec fn parse_doc(b: Seq<u8>) -> Option<(Seq<(Seq<char>, ValueView)>, int)> {
    if b.len() >= 8 {
        let n = le_val(b.subrange(0, 8)) as int;
        match parse_pairs(b.subrange(8, b.len() as int), n) {
            Some((ps, c)) => Some((ps, 8 + c)),
            None => None,
        }
    } else {
        None
    }
}

/// Read `n` documents, one after the other.
pub open spec fn parse_docs(b: Seq<u8>, n: int) -> Option<(Seq<Seq<(Seq<char>, ValueView)>>, int)>
    decreases b.len(), (if n > 0 { n } else { 0int }),
{
    if n <= 0 {
        Some((Seq::empty(), 0))
    } else {
        match parse_doc(b) {
            Some((d, c)) => if 1 <= c <= b.len() {
                match parse_docs(b.subrange(c, b.len() as int), n - 1) {
                    Some((ds, c2)) => Some((seq![d] + ds, c + c2)),
                    None => None,
                }
            } else {
                None
            },
            None => None,
        }
    }
}

/// Read a collection: its name, its document count, its documents.
pub open spec fn parse_collection(b: Seq<u8>) -> Option<(CollectionView, int)> {
    match parse_str(b) {
        Some((name, c1)) => if c1 + 8 <= b.len() {
            let n = le_val(b.subrange(c1, c1 + 8)) as int;
            match parse_docs(b.subrange(c1 + 8, b.len() as int), n) {
                Some((ds, c2)) => Some((CollectionView { name: name, docs: ds }, c1 + 8 + c2)),
                None => None,
            }
        } else {
            None
        },
        None => None,
    }
}

/// Read `n` collections, one after the other.
pub open spec fn parse_collections(b: Seq<u8>, n: int) -> Option<(Seq<CollectionView>, int)>
    decreases b.len(), (if n > 0 { n } else { 0int }),
{
    if n <= 0 {
        Some((Seq::empty(), 0))
    } else {
        match parse_collection(b) {
            Some((c, used)) => if 1 <= used <= b.len() {
                match parse_collections(b.subrange(used, b.len() as int), n - 1) {
                    Some((cs, used2)) => Some((seq![c] + cs, used + used2)),
                    None => None,
                }
            } else {
                None
            },
            None => None,
        }
    }
}

/// Decoding a serialized string recovers it, whatever follows it.
pub proof fn lemma_parse_ser_str(s: Seq<char>, rest: Seq<u8>)
    requires
        str_bounded(s),
    ensures
        parse_str(ser_str(s) + rest) == Some((s, ser_str(s).len() as int)),
        ser_str(s).len() >= 8,
{
    let e = vstd::utf8::encode_utf8(s);
    let b = ser_str(s) + rest;
    lemma_le_roundtrip(e.len(), 8);
    assert(b.subrange(0, 8) =~= le_bytes(e.len(), 8));
    let l = e.len() as int;
    assert(b.subrange(8, 8 + l) =~= e);
    assert(vstd::utf8::decode_utf8(e) == s);
}

/// Any 64-bit quantity fits the eight-byte length field.
pub proof fn lemma_u64_lt_pow8(x: u64)
    ensures
        (x as nat) < pow256(8),
{
    reveal_with_fuel(pow256, 9);
}

/// Decoding a serialized value recovers it, whatever follows it.
#[verifier::rlimit(100)]
pub proof fn lemma_parse_ser_value(v: ValueView, rest: Seq<u8>)
    requires
        value_bounded(v),
    ensures
        parse_value(ser_value(v) + rest) == Some((v, ser_value(v).len() as int)),
        1 <= ser_value(v).len(),
    decreases v, 0int, 0int,
{
    let b = ser_value(v) + rest;
    match v {
        ValueView::Null => {
            assert(b[0] == 0u8);
        },
        ValueView::Bool(x) => {
            assert(b[0] == 1u8);
            assert(b[1] == (if x { 1u8 } else { 0u8 }));
        },
        ValueView::Int(i) => {
            assert(b[0] == 2u8);
            lemma_u64_lt_pow8(i as u64);
            lemma_le_roundtrip((i as u64) as nat, 8);
            assert(b.subrange(1, 9) =~= le_bytes((i as u64) as nat, 8));
            assert(((i as u64) as i64) == i) by (bit_vector);
        },
        ValueView::Float(bits) => {
            assert(b[0] == 3u8);
            lemma_u64_lt_pow8(bits);
            lemma_le_roundtrip(bits as nat, 8);
            assert(b.subrange(1, 9) =~= le_bytes(bits as nat, 8));
        },
        ValueView::Str(s) => {
            assert(b[0] == 4u8);
            assert(b.subrange(1, b.len() as int) =~= ser_str(s) + rest);
            lemma_parse_ser_str(s, rest);
        },
        ValueView::Arr(items) => {
            assert(b[0] == 5u8);
            lemma_le_roundtrip(items.len(), 8);
            assert(b.subrange(1, 9) =~= le_bytes(items.len(), 8));
            assert(b.subrange(9, b.len() as int) =~= ser_values_from(items, 0) + rest);
            lemma_parse_ser_values(items, 0, rest);
            assert(items.subrange(0, items.len() as int) =~= items);
        },
        ValueView::Obj(pairs) => {
            assert(b[0] == 6u8);
            assert(pairs_bounded(pairs)) by {
                reveal_with_fuel(value_bounded, 2);
            }
            lemma_le_roundtrip(pairs.len(), 8);
            assert(b.subrange(1, 9) =~= le_bytes(pairs.len(), 8));
            assert(b.subrange(9, b.len() as int) =~= ser_pairs_from(pairs, 0) + rest);
            lemma_parse_ser_pairs(pairs, 0, rest);
            assert(pairs.subrange(0, pairs.len() as int) =~= pairs);
        },
    }
}

/// Decoding serialized values recovers them, whatever follows them.
pub proof fn lemma_parse_ser_values(s: Seq<ValueView>, i: int, rest: Seq<u8>)
    requires
        0 <= i <= s.len(),
        forall|j: int| i <= j < s.len() ==> value_bounded(#[trigger] s[j]),
    ensures
        parse_values(ser_values_from(s, i) + rest, s.len() - i) == Some(
            (s.subrange(i, s.len() as int), ser_values_from(s, i).len() as int),
        ),
    decreases s, 1int, s.len() - i,
{
    let b = ser_values_from(s, i) + rest;
    if i == s.len() {
        assert(s.subrange(i, s.len() as int) =~= Seq::<ValueView>::empty());
    } else {
        let tail = ser_values_from(s, i + 1) + rest;
        assert(b =~= ser_value(s[i]) + tail);
        lemma_parse_ser_value(s[i], tail);
        let c = ser_value(s[i]).len() as int;
        assert(b.subrange(c, b.len() as int) =~= tail);
        lemma_parse_ser_values(s, i + 1, rest);
        assert(seq![s[i]] + s.subrange(i + 1, s.len() as int) =~= s.subrange(i, s.len() as int));
    }
}

/// Decoding serialized entries recovers them, whatever follows them.
#[verifier::rlimit(100)]
pub proof fn lemma_parse_ser_pairs(s: Seq<(Seq<char>, ValueView)>, i: int, rest: Seq<u8>)
    requires
        0 <= i <= s.len(),
        forall|j: int| i <= j < s.len() ==> str_bounded((#[trigger] s[j]).0) && value_bounded(
            s[j].1,
        ),
    ensures
        parse_pairs(ser_pairs_from(s, i) + rest, s.len() - i) == Some(
            (s.subrange(i, s.len() as int), ser_pairs_from(s, i).len() as int),
        ),
    decreases s, 1int, s.len() - i,
{
    let b = ser_pairs_from(s, i) + rest;
    if i == s.len() {
        assert(s.subrange(i, s.len() as int) =~= Seq::<(Seq<char>, ValueView)>::empty());
    } else {
        let tail2 = ser_pairs_from(s, i + 1) + rest;
        let tail1 = ser_value(s[i].1) + tail2;
        assert(b =~= ser_str(s[i].0) + tail1);
        lemma_parse_ser_str(s[i].0, tail1);
        let c1 = ser_str(s[i].0).len() as int;
        assert(b.subrange(c1, b.len() as int) =~= tail1);
        lemma_parse_ser_value(s[i].1, tail2);
        let c2 = ser_value(s[i].1).len() as int;
        assert(b.subrange(c1 + c2, b.len() as int) =~= tail2);
        lemma_parse_ser_pairs(s, i + 1, rest);
        assert(seq![(s[i].0, s[i].1)] + s.subrange(i + 1, s.len() as int) =~= s.subrange(
            i,
            s.len() as int,
        ));
    }
}

/// Decoding a serialized document recovers it, whatever follows it.
pub proof fn lemma_parse_ser_doc(d: Seq<(Seq<char>, ValueView)>, rest: Seq<u8>)
    requires
        pairs_bounded(d),
    ensures
        parse_doc(ser_doc(d) + rest) == Some((d, ser_doc(d).len() as int)),
        ser_doc(d).len() >= 8,
{
    let b = ser_doc(d) + rest;
    lemma_le_roundtrip(d.len(), 8);
    assert(b.subrange(0, 8) =~= le_bytes(d.len(), 8));
    assert(b.subrange(8, b.len() as int) =~= ser_pairs_from(d, 0) + rest);
    lemma_parse_ser_pairs(d, 0, rest);
    assert(d.subrange(0, d.len() as int) =~= d);
}

/// Decoding serialized documents recovers them, whatever follows them.
pub proof fn lemma_parse_ser_docs(ds: Seq<Seq<(Seq<char>, ValueView)>>, i: int, rest: Seq<u8>)
    requires
        0 <= i <= ds.len(),
        forall|j: int| i <= j < ds.len() ==> pairs_bounded(#[trigger] ds[j]),
    ensures
        parse_docs(ser_docs_from(ds, i) + rest, ds.len() - i) == Some(
            (ds.subrange(i, ds.len() as int), ser_docs_from(ds, i).len() as int),
        ),
    decreases ds.len() - i,
{
    let b = ser_docs_from(ds, i) + rest;
    if i == ds.len() {
        assert(ds.subrange(i, ds.len() as int) =~= Seq::<Seq<(Seq<char>, ValueView)>>::empty());
    } else {
        let tail = ser_docs_from(ds, i + 1) + rest;
        assert(b =~= ser_doc(ds[i]) + tail);
        lemma_parse_ser_doc(ds[i], tail);
        let c = ser_doc(ds[i]).len() as int;
        assert(b.subrange(c, b.len() as int) =~= tail);
        lemma_parse_ser_docs(ds, i + 1, rest);
        assert(seq![ds[i]] + ds.subrange(i + 1, ds.len() as int) =~= ds.subrange(
            i,
            ds.len() as int,
        ));
    }
}

/// Decoding a serialized collection recovers it, whatever follows it.
pub proof fn lemma_parse_ser_collection(c: CollectionView, rest: Seq<u8>)
    requires
        col_bounded(c),
    ensures
        parse_collection(ser_collection(c) + rest) == Some((c, ser_collection(c).len() as int)),
        ser_collection(c).len() >= 8,
{
    let b = ser_collection(c) + rest;
    let tail1 = le_bytes(c.docs.len(), 8) + ser_docs_from(c.docs, 0) + rest;
    assert(b =~= ser_str(c.name) + tail1);
    lemma_parse_ser_str(c.name, tail1);
    let c1 = ser_str(c.name).len() as int;
    lemma_le_roundtrip(c.docs.len(), 8);
    assert(b.subrange(c1, c1 + 8) =~= le_bytes(c.docs.len(), 8));
    assert(b.subrange(c1 + 8, b.len() as int) =~= ser_docs_from(c.docs, 0) + rest);
    lemma_parse_ser_docs(c.docs, 0, rest);
    assert(c.docs.subrange(0, c.docs.len() as int) =~= c.docs);
}

/// Decoding serialized collections recovers them, whatever follows them.
#[verifier::rlimit(100)]
pub proof fn lemma_parse_ser_collections(cs: Seq<CollectionView>, i: int, rest: Seq<u8>)
    requires
        0 <= i <= cs.len(),
        forall|j: int| i <= j < cs.len() ==> col_bounded(#[trigger] cs[j]),
    ensures
        parse_collections(ser_collections_from(cs, i) + rest, cs.len() - i) == Some(
            (cs.subrange(i, cs.len() as int), ser_collections_from(cs, i).len() as int),
        ),
    decreases cs.len() - i,
{
    let b = ser_collections_from(cs, i) + rest;
    if i == cs.len() {
        assert(cs.subrange(i, cs.len() as int) =~= Seq::<CollectionView>::empty());
    } else {
        let tail = ser_collections_from(cs, i + 1) + rest;
        assert(b =~= ser_collection(cs[i]) + tail);
        lemma_parse_ser_collection(cs[i], tail);
        let c = ser_collection(cs[i]).len() as int;
        assert(b.subrange(c, b.len() as int) =~= tail);
        lemma_parse_ser_collections(cs, i + 1, rest);
        assert(seq![cs[i]] + cs.subrange(i + 1, cs.len() as int) =~= cs.subrange(
            i,
            cs.len() as int,
        ));
    }
}

/// The round trip: decoding a serialized database reproduces it exactly --
/// same filename, same collection names in the same order, same documents.
pub proof fn lemma_database_roundtrip(db: DatabaseView)
    requires
        db_bounded(db),
    ensures
        parse_database(ser_database(db)) == Some((db, ser_database(db).len() as int)),
{
    let b = ser_database(db);
    let tail1 = le_bytes(db.collections.len(), 8) + ser_collections_from(db.collections, 0)
        + Seq::<u8>::empty();
    assert(b =~= ser_str(db.filename) + tail1);
    lemma_parse_ser_str(db.filename, tail1);
    let c1 = ser_str(db.filename).len() as int;
    lemma_le_roundtrip(db.collections.len(), 8);
    assert(b.subrange(c1, c1 + 8) =~= le_bytes(db.collections.len(), 8));
    assert(b.subrange(c1 + 8, b.len() as int) =~= ser_collections_from(db.collections, 0)
        + Seq::<u8>::empty());
    lemma_parse_ser_collections(db.collections, 0, Seq::empty());
    assert(db.collections.subrange(0, db.collections.len() as int) =~= db.collections);
    assert(DatabaseView {
        filename: db.filename,
        collections: db.collections.subrange(0, db.collections.len() as int),
    } =~= db);
}

/// Read a database: its filename, its collection count, its collections.
pub open spec fn parse_database(b: Seq<u8>) -> Option<(DatabaseView, int)> {
    match parse_str(b) {
        Some((filename, c1)) => if c1 + 8 <= b.len() {
            let n = le_val(b.subrange(c1, c1 + 8)) as int;
            match parse_collections(b.subrange(c1 + 8, b.len() as int), n) {
                Some((cs, c2)) => Some(
                    (DatabaseView { filename: filename, collections: cs }, c1 + 8 + c2),
                ),
                None => None,
            }
        } else {
            None
        },
        None => None,
    }
}


/// Append the serialization of a string: length, then UTF-8 bytes.
pub fn encode_str(out: &mut Vec<u8>, s: &String)
    ensures
        final(out)@ == old(out)@ + ser_str(s@),
        str_bounded(s@),
{
    let bytes: &[u8] = s.as_str().as_bytes();
    let n = bytes.len();
    proof {
        lemma_u64_lt_pow8(n as u64);
    }
    push_le8(out, n as u64);
    out.extend_from_slice(bytes);
    proof {
        assert(out@ =~= old(out)@ + ser_str(s@));
    }
}

/// Append the serialization of a value: tag, then payload.
#[verifier::loop_isolation(false)]
pub fn encode_value(out: &mut Vec<u8>, v: &Value)
    ensures
        final(out)@ == old(out)@ + ser_value(v@),
        value_bounded(v@),
    decreases v@,
{
    match v {
        Value::Null => {
            out.push(0u8);
            proof {
                assert(out@ =~= old(out)@ + ser_value(v@));
            }
        },
        Value::Bool(x) => {
            out.push(1u8);
            out.push(if *x { 1u8 } else { 0u8 });
            proof {
                assert(out@ =~= old(out)@ + ser_value(v@));
            }
        },
        Value::Int(i) => {
            out.push(2u8);
            push_le8(out, *i as u64);
            proof {
                assert(out@ =~= old(out)@ + ser_value(v@));
            }
        },
        Value::Float(bits) => {
            out.push(3u8);
            push_le8(out, *bits);
            proof {
                assert(out@ =~= old(out)@ + ser_value(v@));
            }
        },
        Value::Str(s) => {
            out.push(4u8);
            encode_str(out, s);
            proof {
                assert(out@ =~= old(out)@ + ser_value(v@));
            }
        },
        Value::Arr(items) => {
            let ghost vv = values_view(items@);
            out.push(5u8);
            let n = items.len();
            proof {
                lemma_u64_lt_pow8(n as u64);
                lemma_values_view(items@);
            }
            push_le8(out, n as u64);
            let ghost base = out@;
            let mut i: usize = 0;
            proof {
                assert(v@ == ValueView::Arr(vv));
            }
            while i < n
                invariant
                    0 <= i <= n,
                    out@ + ser_values_from(vv, i as int) == base + ser_values_from(vv, 0),
                    forall|j: int| 0 <= j < i ==> value_bounded(#[trigger] vv[j]),
                decreases n - i,
            {
                proof {
                    assert(v@->Arr_0 == vv);
                    assert(decreases_to!(v@ => vv[i as int]));
                    assert(vv[i as int] == items@[i as int]@);
                }
                let ghost before = out@;
                encode_value(out, &items[i]);
                proof {
                    assert(ser_values_from(vv, i as int) == ser_value(vv[i as int])
                        + ser_values_from(vv, i + 1));
                    assert(out@ + ser_values_from(vv, i + 1) =~= before + ser_values_from(
                        vv,
                        i as int,
                    ));
                }
                i += 1;
            }
            proof {
                assert(ser_values_from(vv, n as int) =~= Seq::<u8>::empty());
                assert(out@ =~= out@ + ser_values_from(vv, n as int));
                assert(out@ =~= old(out)@ + ser_value(v@));
            }
        },
        Value::Obj(d) => {
            out.push(6u8);
            proof {
                assert(decreases_to!(v@ => v@->Obj_0));
            }
            encode_doc(out, d);
            proof {
                assert(out@ =~= old(out)@ + ser_value(v@));
            }
        },
    }
}

/// Append the serialization of a document: entry count, then entries.
#[verifier::loop_isolation(false)]
pub fn encode_doc(out: &mut Vec<u8>, d: &Doc)
    ensures
        final(out)@ == old(out)@ + ser_doc(d@),
        pairs_bounded(d@),
    decreases d@,
{
    let entries = d.entries();
    let n = entries.len();
    proof {
        lemma_u64_lt_pow8(n as u64);
        lemma_pairs_view(entries@);
    }
    push_le8(out, n as u64);
    let ghost base = out@;
    let mut i: usize = 0;
    while i < n
        invariant
            0 <= i <= n,
            out@ + ser_pairs_from(d@, i as int) == base + ser_pairs_from(d@, 0),
            forall|j: int| 0 <= j < i ==> str_bounded((#[trigger] d@[j]).0) && value_bounded(
                d@[j].1,
            ),
        decreases n - i,
    {
        let ghost before = out@;
        encode_str(out, &entries[i].0);
        proof {
            assert(decreases_to!(d@ => d@[i as int].1));
            assert(d@[i as int].1 == entries@[i as int].1@);
        }
        encode_value(out, &entries[i].1);
        proof {
            assert(ser_pairs_from(d@, i as int) == ser_str(d@[i as int].0) + ser_value(
                d@[i as int].1,
            ) + ser_pairs_from(d@, i + 1));
            assert(out@ + ser_pairs_from(d@, i + 1) =~= before + ser_pairs_from(d@, i as int));
        }
        i += 1;
    }
    proof {
        assert(ser_pairs_from(d@, n as int) =~= Seq::<u8>::empty());
        assert(out@ =~= out@ + ser_pairs_from(d@, n as int));
        assert(out@ =~= old(out)@ + ser_doc(d@));
    }
}

/// Append the serialization of a collection: name, count, documents.
#[verifier::loop_isolation(false)]
pub fn encode_collection(out: &mut Vec<u8>, c: &Collection)
    ensures
        final(out)@ == old(out)@ + ser_collection(c@),
        col_bounded(c@),
{
    let name = c.get_name();
    encode_str(out, &name);
    let docs = c.get_collection();
    let n = docs.len();
    proof {
        lemma_u64_lt_pow8(n as u64);
    }
    push_le8(out, n as u64);
    let ghost base = out@;
    let mut i: usize = 0;
    while i < n
        invariant
            0 <= i <= n,
            n == docs@.len(),
            out@ + ser_docs_from(c@.docs, i as int) == base + ser_docs_from(c@.docs, 0),
            forall|j: int| 0 <= j < i ==> pairs_bounded(#[trigger] c@.docs[j]),
        decreases n - i,
    {
        let ghost before = out@;
        proof {
            assert(c@.docs[i as int] == docs@[i as int]@);
        }
        encode_doc(out, &docs[i]);
        proof {
            assert(ser_docs_from(c@.docs, i as int) == ser_doc(c@.docs[i as int]) + ser_docs_from(
                c@.docs,
                i + 1,
            ));
            assert(out@ + ser_docs_from(c@.docs, i + 1) =~= before + ser_docs_from(
                c@.docs,
                i as int,
            ));
        }
        i += 1;
    }
    proof {
        assert(ser_docs_from(c@.docs, n as int) =~= Seq::<u8>::empty());
        assert(out@ =~= out@ + ser_docs_from(c@.docs, n as int));
        assert(out@ =~= old(out)@ + ser_collection(c@));
    }
}

/// Serialize the whole database into one binary image.
#[verifier::loop_isolation(false)]
pub fn encode_database(database: &Database) -> (r: Vec<u8>)
    ensures
        r@ == ser_database(database@),
        db_bounded(database@),
{
    let mut out: Vec<u8> = Vec::new();
    let filename = database.get_filename();
    encode_str(&mut out, &filename);
    let cols = database.get_collections();
    let n = cols.len();
    proof {
        lemma_u64_lt_pow8(n as u64);
    }
    push_le8(&mut out, n as u64);
    let ghost base = out@;
    let ghost cv = database@.collections;
    let mut i: usize = 0;
    while i < n
        invariant
            0 <= i <= n,
            n == cols@.len(),
            out@ + ser_collections_from(cv, i as int) == base + ser_collections_from(cv, 0),
            forall|j: int| 0 <= j < i ==> col_bounded(#[trigger] cv[j]),
        decreases n - i,
    {
        let ghost before = out@;
        proof {
            assert(cv[i as int] == cols@[i as int]@);
        }
        encode_collection(&mut out, &cols[i]);
        proof {
            assert(ser_collections_from(cv, i as int) == ser_collection(cv[i as int])
                + ser_collections_from(cv, i + 1));
            assert(out@ + ser_collections_from(cv, i + 1) =~= before + ser_collections_from(
                cv,
                i as int,
            ));
        }
        i += 1;
    }
    proof {
        assert(ser_collections_from(cv, n as int) =~= Seq::<u8>::empty());
        assert(out@ =~= out@ + ser_collections_from(cv, n as int));
        assert(out@ =~= ser_database(database@));
    }
    out
}


/// Relies on `String::from_utf8`: it yields the string whose UTF-8
/// encoding is the given bytes, and refuses exactly the byte sequences
/// that are not valid UTF-8.
#[verifier::external_body]
fn string_from_utf8(bytes: Vec<u8>) -> (r: Option<String>)
    ensures
        r is Some <==> vstd::utf8::valid_utf8(bytes@),
        match r {
            Some(s) => vstd::utf8::encode_utf8(s@) == bytes@,
            None => true,
        },
{
    String::from_utf8(bytes).ok()
}

/// Read a string at `pos`: length, then UTF-8 bytes.
#[verifier::loop_isolation(false)]
pub fn decode_str(bytes: &Vec<u8>, pos: usize) -> (r: Option<(String, usize)>)
    requires
        pos <= bytes@.len(),
    ensures
        match r {
            Some(p) => {
                &&& parse_str(bytes@.skip(pos as int)) == Some((p.0@, p.1 - pos as int))
                &&& pos < p.1 <= bytes@.len()
            },
            None => parse_str(bytes@.skip(pos as int)) is None,
        },
{
    let ghost b = bytes@.skip(pos as int);
    let n = bytes.len();
    if n - pos < 8 {
        return None;
    }
    let l64 = read_le(bytes, pos, 8);
    proof {
        assert(b.subrange(0, 8) =~= bytes@.subrange(pos as int, pos + 8));
    }
    if l64 > (n - pos - 8) as u64 {
        return None;
    }
    let l = l64 as usize;
    let mut chunk: Vec<u8> = Vec::new();
    let mut k: usize = 0;
    while k < l
        invariant
            0 <= k <= l,
            chunk@ =~= bytes@.subrange(pos + 8, pos + 8 + k),
        decreases l - k,
    {
        chunk.push(bytes[pos + 8 + k]);
        proof {
            assert(chunk@ =~= bytes@.subrange(pos + 8, pos + 8 + (k + 1)));
        }
        k += 1;
    }
    proof {
        assert(chunk@ =~= b.subrange(8, 8 + l));
    }
    let ghost chunkv = chunk@;
    match string_from_utf8(chunk) {
        Some(s) => {
            proof {
                assert(vstd::utf8::valid_utf8(chunkv));
                assert(vstd::utf8::decode_utf8(chunkv) == s@);
            }
            Some((s, pos + 8 + l))
        },
        None => {
            proof {
                assert(!vstd::utf8::valid_utf8(chunkv));
            }
            None
        },
    }
}

/// Read one value at `pos`: tag, then payload.
#[verifier::loop_isolation(false)]
#[verifier::rlimit(100)]
pub fn decode_value(bytes: &Vec<u8>, pos: usize) -> (r: Option<(Value, usize)>)
    requires
        pos <= bytes@.len(),
    ensures
        match r {
            Some(p) => {
                &&& parse_value(bytes@.skip(pos as int)) == Some((p.0@, p.1 - pos as int))
                &&& pos < p.1 <= bytes@.len()
            },
            None => parse_value(bytes@.skip(pos as int)) is None,
        },
    decreases bytes@.len() - pos, 0int, 0int,
{
    let ghost b = bytes@.skip(pos as int);
    let n = bytes.len();
    if pos == n {
        return None;
    }
    let tag = bytes[pos];
    proof {
        assert(b[0] == tag);
        reveal_with_fuel(pow256, 9);
    }
    if tag == 0 {
        Some((Value::Null, pos + 1))
    } else if tag == 1 {
        if n - pos >= 2 {
            let x = bytes[pos + 1];
            proof {
                assert(b[1] == x);
            }
            if x == 0 || x == 1 {
                Some((Value::Bool(x == 1), pos + 2))
            } else {
                None
            }
        } else {
            None
        }
    } else if tag == 2 {
        if n - pos >= 9 {
            let u = read_le(bytes, pos + 1, 8);
            proof {
                assert(b.subrange(1, 9) =~= bytes@.subrange(pos + 1, pos + 9));
            }
            Some((Value::Int(u as i64), pos + 9))
        } else {
            None
        }
    } else if tag == 3 {
        if n - pos >= 9 {
            let u = read_le(bytes, pos + 1, 8);
            proof {
                assert(b.subrange(1, 9) =~= bytes@.subrange(pos + 1, pos + 9));
            }
            Some((Value::Float(u), pos + 9))
        } else {
            None
        }
    } else if tag == 4 {
        proof {
            assert(b.subrange(1, b.len() as int) =~= bytes@.skip(pos + 1));
        }
        match decode_str(bytes, pos + 1) {
            Some((s, end)) => Some((Value::Str(s), end)),
            None => None,
        }
    } else if tag == 5 {
        if n - pos >= 9 {
            let cnt = read_le(bytes, pos + 1, 8);
            proof {
                assert(b.subrange(1, 9) =~= bytes@.subrange(pos + 1, pos + 9));
                assert(b.subrange(9, b.len() as int) =~= bytes@.skip(pos + 9));
            }
            match decode_values(bytes, pos + 9, cnt) {
                Some((vs, end)) => Some((Value::Arr(vs), end)),
                None => None,
            }
        } else {
            None
        }
    } else if tag == 6 {
        if n - pos >= 9 {
            let cnt = read_le(bytes, pos + 1, 8);
            proof {
                assert(b.subrange(1, 9) =~= bytes@.subrange(pos + 1, pos + 9));
                assert(b.subrange(9, b.len() as int) =~= bytes@.skip(pos + 9));
            }
            match decode_pairs(bytes, pos + 9, cnt) {
                Some((ps, end)) => {
                    let d = Doc::from_pairs(ps);
                    Some((Value::Obj(d), end))
                },
                None => None,
            }
        } else {
            None
        }
    } else {
        None
    }
}

/// Read `cnt` values, one after the other, starting at `pos`.
#[verifier::loop_isolation(false)]
pub fn decode_values(bytes: &Vec<u8>, pos: usize, cnt: u64) -> (r: Option<(Vec<Value>, usize)>)
    requires
        pos <= bytes@.len(),
    ensures
        match r {
            Some(p) => {
                &&& parse_values(bytes@.skip(pos as int), cnt as int) == Some(
                    (values_view(p.0@), p.1 - pos as int),
                )
                &&& pos <= p.1 <= bytes@.len()
            },
            None => parse_values(bytes@.skip(pos as int), cnt as int) is None,
        },
    decreases bytes@.len() - pos, 1int, cnt,
{
    let ghost b = bytes@.skip(pos as int);
    if cnt == 0 {
        let r: Vec<Value> = Vec::new();
        proof {
            assert(values_view(r@) =~= Seq::<ValueView>::empty());
        }
        return Some((r, pos));
    }
    match decode_value(bytes, pos) {
        Some((v, p2)) => {
            proof {
                assert(b.subrange(p2 - pos as int, b.len() as int) =~= bytes@.skip(p2 as int));
            }
            match decode_values(bytes, p2, cnt - 1) {
                Some((mut vs, end)) => {
                    let ghost oldvs = vs@;
                    let ghost tailv = values_view(vs@);
                    vs.insert(0, v);
                    proof {
                        assert(values_view(vs@) =~= seq![v@] + tailv) by {
                            lemma_values_view(vs@);
                            lemma_values_view(oldvs);
                            assert(vs@ =~= seq![v] + oldvs);
                        }
                    }
                    Some((vs, end))
                },
                None => None,
            }
        },
        None => None,
    }
}

/// Read `cnt` key/value entries, one after the other, starting at `pos`.
#[verifier::loop_isolation(false)]
pub fn decode_pairs(bytes: &Vec<u8>, pos: usize, cnt: u64) -> (r: Option<
    (Vec<(String, Value)>, usize),
>)
    requires
        pos <= bytes@.len(),
    ensures
        match r {
            Some(p) => {
                &&& parse_pairs(bytes@.skip(pos as int), cnt as int) == Some(
                    (pairs_view(p.0@), p.1 - pos as int),
                )
                &&& pos <= p.1 <= bytes@.len()
            },
            None => parse_pairs(bytes@.skip(pos as int), cnt as int) is None,
        },
    decreases bytes@.len() - pos, 1int, cnt,
{
    let ghost b = bytes@.skip(pos as int);
    if cnt == 0 {
        let r: Vec<(String, Value)> = Vec::new();
        proof {
            assert(pairs_view(r@) =~= Seq::<(Seq<char>, ValueView)>::empty());
        }
        return Some((r, pos));
    }
    match decode_str(bytes, pos) {
        Some((key, p2)) => {
            proof {
                assert(b.subrange(p2 - pos as int, b.len() as int) =~= bytes@.skip(p2 as int));
            }
            match decode_value(bytes, p2) {
                Some((v, p3)) => {
                    proof {
                        assert(b.subrange(p3 - pos as int, b.len() as int) =~= bytes@.skip(
                            p3 as int,
                        ));
                    }
                    match decode_pairs(bytes, p3, cnt - 1) {
                        Some((mut ps, end)) => {
                            let ghost oldps = ps@;
                            let ghost tailv = pairs_view(ps@);
                            let ghost kv = key@;
                            let ghost vv = v@;
                            ps.insert(0, (key, v));
                            proof {
                                assert(pairs_view(ps@) =~= seq![(kv, vv)] + tailv) by {
                                    lemma_pairs_view(ps@);
                                    lemma_pairs_view(oldps);
                                    assert(ps@[0].0@ == kv && ps@[0].1@ == vv);
                                }
                            }
                            Some((ps, end))
                        },
                        None => None,
                    }
                },
                None => None,
            }
        },
        None => None,
    }
}

/// Read a document at `pos`: entry count, then entries.
pub fn decode_doc(bytes: &Vec<u8>, pos: usize) -> (r: Option<(Doc, usize)>)
    requires
        pos <= bytes@.len(),
    ensures
        match r {
            Some(p) => {
                &&& parse_doc(bytes@.skip(pos as int)) == Some((p.0@, p.1 - pos as int))
                &&& pos < p.1 <= bytes@.len()
            },
            None => parse_doc(bytes@.skip(pos as int)) is None,
        },
{
    let ghost b = bytes@.skip(pos as int);
    let n = bytes.len();
    if n - pos < 8 {
        return None;
    }
    let cnt = read_le(bytes, pos, 8);
    proof {
        assert(b.subrange(0, 8) =~= bytes@.subrange(pos as int, pos + 8));
        assert(b.subrange(8, b.len() as int) =~= bytes@.skip(pos + 8));
    }
    match decode_pairs(bytes, pos + 8, cnt) {
        Some((ps, end)) => Some((Doc::from_pairs(ps), end)),
        None => None,
    }
}

/// Read `cnt` documents, one after the other, starting at `pos`.
#[verifier::loop_isolation(false)]
pub fn decode_docs(bytes: &Vec<u8>, pos: usize, cnt: u64) -> (r: Option<(Vec<Doc>, usize)>)
    requires
        pos <= bytes@.len(),
    ensures
        match r {
            Some(p) => {
                &&& parse_docs(bytes@.skip(pos as int), cnt as int) == Some(
                    (docs_view(p.0@), p.1 - pos as int),
                )
                &&& pos <= p.1 <= bytes@.len()
            },
            None => parse_docs(bytes@.skip(pos as int), cnt as int) is None,
        },
    decreases bytes@.len() - pos, cnt,
{
    let ghost b = bytes@.skip(pos as int);
    if cnt == 0 {
        let r: Vec<Doc> = Vec::new();
        proof {
            assert(docs_view(r@) =~= Seq::<Seq<(Seq<char>, ValueView)>>::empty());
        }
        return Some((r, pos));
    }
    match decode_doc(bytes, pos) {
        Some((d, p2)) => {
            proof {
                assert(b.subrange(p2 - pos as int, b.len() as int) =~= bytes@.skip(p2 as int));
            }
            match decode_docs(bytes, p2, cnt - 1) {
                Some((mut ds, end)) => {
                    let ghost tailv = docs_view(ds@);
                    let ghost dv = d@;
                    ds.insert(0, d);
                    proof {
                        assert(docs_view(ds@) =~= seq![dv] + tailv);
                    }
                    Some((ds, end))
                },
                None => None,
            }
        },
        None => None,
    }
}

/// Read a collection at `pos`: name, document count, documents.
pub fn decode_collection(bytes: &Vec<u8>, pos: usize) -> (r: Option<(Collection, usize)>)
    requires
        pos <= bytes@.len(),
    ensures
        match r {
            Some(p) => {
                &&& parse_collection(bytes@.skip(pos as int)) == Some((p.0@, p.1 - pos as int))
                &&& pos < p.1 <= bytes@.len()
                &&& p.0.wf()
            },
            None => parse_collection(bytes@.skip(pos as int)) is None,
        },
{
    let ghost b = bytes@.skip(pos as int);
    let n = bytes.len();
    match decode_str(bytes, pos) {
        Some((name, p2)) => {
            if n - p2 < 8 {
                proof {
                    assert(p2 - pos as int + 8 > b.len());
                }
                return None;
            }
            let cnt = read_le(bytes, p2, 8);
            proof {
                assert(b.subrange(p2 - pos as int, p2 - pos as int + 8) =~= bytes@.subrange(
                    p2 as int,
                    p2 + 8,
                ));
                assert(b.subrange(p2 - pos as int + 8, b.len() as int) =~= bytes@.skip(p2 + 8));
            }
            match decode_docs(bytes, p2 + 8, cnt) {
                Some((ds, end)) => Some((Collection::from_parts(name, ds), end)),
                None => None,
            }
        },
        None => None,
    }
}

/// Read `cnt` collections, one after the other, starting at `pos`.
#[verifier::loop_isolation(false)]
pub fn decode_collections(bytes: &Vec<u8>, pos: usize, cnt: u64) -> (r: Option<
    (Vec<Collection>, usize),
>)
    requires
        pos <= bytes@.len(),
    ensures
        match r {
            Some(p) => {
                &&& parse_collections(bytes@.skip(pos as int), cnt as int) == Some(
                    (cols_view(p.0@), p.1 - pos as int),
                )
                &&& pos <= p.1 <= bytes@.len()
                &&& forall|i: int| 0 <= i < p.0@.len() ==> (#[trigger] p.0@[i]).wf()
            },
            None => parse_collections(bytes@.skip(pos as int), cnt as int) is None,
        },
    decreases bytes@.len() - pos, cnt,
{
    let ghost b = bytes@.skip(pos as int);
    if cnt == 0 {
        let r: Vec<Collection> = Vec::new();
        proof {
            assert(cols_view(r@) =~= Seq::<CollectionView>::empty());
        }
        return Some((r, pos));
    }
    match decode_collection(bytes, pos) {
        Some((c, p2)) => {
            proof {
                assert(b.subrange(p2 - pos as int, b.len() as int) =~= bytes@.skip(p2 as int));
            }
            match decode_collections(bytes, p2, cnt - 1) {
                Some((mut cs, end)) => {
                    let ghost tailv = cols_view(cs@);
                    let ghost cv = c@;
                    cs.insert(0, c);
                    proof {
                        assert(cols_view(cs@) =~= seq![cv] + tailv);
                    }
                    Some((cs, end))
                },
                None => None,
            }
        },
        None => None,
    }
}


/// What loading a binary image yields: the parsed database, provided the
/// image parses exactly, is wholly consumed, and names no collection twice.
pub open spec fn spec_decode_db(b: Seq<u8>) -> Option<DatabaseView> {
    match parse_database(b) {
        Some((db, c)) => if c == b.len() && crate::database::names_unique(db.collections) {
            Some(db)
        } else {
            None
        },
        None => None,
    }
}

/// Whether the collections all carry distinct names.
#[verifier::loop_isolation(false)]
fn names_unique_exec(cols: &Vec<Collection>) -> (r: bool)
    ensures
        r == crate::database::names_unique(cols_view(cols@)),
{
    let ghost cv = cols_view(cols@);
    let n = cols.len();
    let mut i: usize = 0;
    while i < n
        invariant
            0 <= i <= n,
            n == cols@.len(),
            forall|p: int, q: int| 0 <= p < q < i ==> (#[trigger] cv[p]).name != (
            #[trigger] cv[q]).name,
        decreases n - i,
    {
        let mut j: usize = 0;
        while j < i
            invariant
                0 <= j <= i < n,
                forall|p: int| 0 <= p < j ==> (#[trigger] cv[p]).name != cv[i as int].name,
            decreases i - j,
        {
            if cols[j].get_name_ref().eq(cols[i].get_name_ref()) {
                proof {
                    assert(cv[j as int].name == cv[i as int].name);
                }
                return false;
            }
            proof {
                assert(cv[j as int].name != cv[i as int].name);
            }
            j += 1;
        }
        i += 1;
    }
    true
}

/// Decode a whole binary image back into a database: the image must parse,
/// be wholly consumed, and name no collection twice.
pub fn decode_database(bytes: &Vec<u8>) -> (r: Option<Database>)
    ensures
        match r {
            Some(db) => spec_decode_db(bytes@) == Some(db@) && db.wf(),
            None => spec_decode_db(bytes@) is None,
        },
{
    let ghost b = bytes@;
    let n = bytes.len();
    proof {
        assert(bytes@.skip(0) =~= b);
    }
    match decode_str(bytes, 0) {
        Some((filename, p2)) => {
            if n - p2 < 8 {
                return None;
            }
            let cnt = read_le(bytes, p2, 8);
            proof {
                assert(b.subrange(p2 as int, p2 + 8) =~= bytes@.subrange(p2 as int, p2 + 8));
                assert(b.subrange(p2 + 8, b.len() as int) =~= bytes@.skip(p2 + 8));
            }
            match decode_collections(bytes, p2 + 8, cnt) {
                Some((cols, end)) => {
                    if end != n {
                        return None;
                    }
                    if !names_unique_exec(&cols) {
                        return None;
                    }
                    let db = Database::new(filename, cols);
                    Some(db)
                },
                None => None,
            }
        },
        None => None,
    }
}

/// Saving a well-formed database and loading the image reproduces it: the
/// same filename, the same collection names in the same order, the same
/// document counts, and structurally equal documents.
pub proof fn lemma_save_load_roundtrip(db: DatabaseView)
    requires
        db_bounded(db),
        crate::database::names_unique(db.collections),
    ensures
        spec_decode_db(ser_database(db)) == Some(db),
{
    lemma_database_roundtrip(db);
}

/// Open a database: decode the file's bytes where the file could be read
/// and its content is a valid image, and otherwise fall back to a fresh,
/// empty database bound to `filename`.  No failure is fatal.
pub fn db_open(filename: String, contents: Option<&Vec<u8>>) -> (r: Database)
    ensures
        r.wf(),
        match contents {
            Some(bytes) => match spec_decode_db(bytes@) {
                Some(dbv) => r@ == dbv,
                None => r@.filename == filename@ && r@.collections.len() == 0,
            },
            None => r@.filename == filename@ && r@.collections.len() == 0,
        },
{
    let decoded = match contents {
        Some(bytes) => decode_database(bytes),
        None => None,
    };
    match decoded {
        Some(db) => db,
        None => {
            let cols: Vec<Collection> = Vec::new();
            proof {
                assert(cols_view(cols@) =~= Seq::<CollectionView>::empty());
            }
            Database::new(filename, cols)
        },
    }
}

} // verus!
