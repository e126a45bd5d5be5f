//! The order of keys: strings compared byte by byte in their UTF-8 encoding,
//! which is the order `str` itself has.

use vstd::prelude::*;
use vstd::utf8::*;

verus! {

/// How one key stands to another.
#[derive(Clone, Copy, Debug, PartialEq, Eq, Structural)]
pub enum Relation {
    Before,
    Same,
    After,
}

/// Whether `a` comes before `b` lexicographically, looking only at positions
/// from `k` on.
pub open spec fn bytes_lt_from(a: Seq<u8>, b: Seq<u8>, k: int) -> bool
    decreases b.len() - k,
{
    if k < 0 || k >= b.len() {
        false
    } else if k >= a.len() {
        true
    } else if a[k] != b[k] {
        a[k] < b[k]
    } else {
        bytes_lt_from(a, b, k + 1)
    }
}

/// Lexicographic order on byte strings: a proper prefix comes first, and
/// otherwise the first differing byte decides.
pub open spec fn bytes_lt(a: Seq<u8>, b: Seq<u8>) -> bool {
    bytes_lt_from(a, b, 0)
}

/// The strict order of keys.
pub open spec fn key_lt(a: Seq<char>, b: Seq<char>) -> bool {
    bytes_lt(encode_utf8(a), encode_utf8(b))
}

/// The relation of `a` to `b` in the order of keys.
pub open spec fn relation(a: Seq<char>, b: Seq<char>) -> Relation {
    if key_lt(a, b) {
        Relation::Before
    } else if key_lt(b, a) {
        Relation::After
    } else {
        Relation::Same
    }
}

/// Keys in strictly ascending order.
pub open spec fn ascending(keys: Seq<Seq<char>>) -> bool {
    forall|i: int, j: int| 0 <= i < j < keys.len() ==> key_lt(keys[i], keys[j])
}

proof fn lemma_bytes_irreflexive_from(a: Seq<u8>, k: int)
    ensures
        !bytes_lt_from(a, a, k),
    decreases a.len() - k,
{
    if 0 <= k < a.len() {
        lemma_bytes_irreflexive_from(a, k + 1);
    }
}

proof fn lemma_bytes_transitive_from(a: Seq<u8>, b: Seq<u8>, c: Seq<u8>, k: int)
    requires
        bytes_lt_from(a, b, k),
        bytes_lt_from(b, c, k),
    ensures
        bytes_lt_from(a, c, k),
    decreases c.len() - k,
{
    if k < a.len() && a[k] == b[k] && b[k] == c[k] {
        lemma_bytes_transitive_from(a, b, c, k + 1);
    }
}

proof fn lemma_bytes_total_from(a: Seq<u8>, b: Seq<u8>, k: int)
    requires
        0 <= k <= a.len(),
        k <= b.len(),
        !bytes_lt_from(a, b, k),
        !bytes_lt_from(b, a, k),
    ensures
        a.len() == b.len(),
        forall|i: int| k <= i < a.len() ==> a[i] == b[i],
    decreases a.len() - k,
{
    if k < a.len() && k < b.len() {
        lemma_bytes_total_from(a, b, k + 1);
    }
}

/// No key comes before itself.
pub proof fn lemma_key_lt_irreflexive(a: Seq<char>)
    ensures
        !key_lt(a, a),
{
    lemma_bytes_irreflexive_from(encode_utf8(a), 0);
}

/// The order of keys is transitive.
pub proof fn lemma_key_lt_transitive(a: Seq<char>, b: Seq<char>, c: Seq<char>)
    requires
        key_lt(a, b),
        key_lt(b, c),
    ensures
        key_lt(a, c),
{
    lemma_bytes_transitive_from(encode_utf8(a), encode_utf8(b), encode_utf8(c), 0);
}

/// Of two different keys one comes before the other.
pub proof fn lemma_key_lt_total(a: Seq<char>, b: Seq<char>)
    ensures
        a == b || key_lt(a, b) || key_lt(b, a),
{
    if !key_lt(a, b) && !key_lt(b, a) {
        lemma_bytes_total_from(encode_utf8(a), encode_utf8(b), 0);
        assert(encode_utf8(a) =~= encode_utf8(b));
        encode_utf8_decode_utf8(a);
        encode_utf8_decode_utf8(b);
    }
}

/// Compares two keys.
pub fn relate(a: &str, b: &str) -> (r: Relation)
    ensures
        r == relation(a@, b@),
        r == Relation::Same <==> a@ == b@,
{
    let x = a.as_bytes();
    let y = b.as_bytes();
    let mut k: usize = 0;
    while k < x.len() && k < y.len()
        invariant
            x@ == encode_utf8(a@),
            y@ == encode_utf8(b@),
            k <= x.len(),
            k <= y.len(),
            bytes_lt(x@, y@) == bytes_lt_from(x@, y@, k as int),
            bytes_lt(y@, x@) == bytes_lt_from(y@, x@, k as int),
        decreases x.len() - k,
    {
        if x[k] < y[k] {
            proof {
                lemma_relation_same(a@, b@);
            }
            return Relation::Before;
        }
        if x[k] > y[k] {
            proof {
                lemma_relation_same(a@, b@);
            }
            return Relation::After;
        }
        k = k + 1;
    }
    proof {
        lemma_relation_same(a@, b@);
    }
    if k < y.len() {
        Relation::Before
    } else if k < x.len() {
        Relation::After
    } else {
        Relation::Same
    }
}

/// Two keys stand in the relation `Same` exactly when they are equal.
pub proof fn lemma_relation_same(a: Seq<char>, b: Seq<char>)
    ensures
        relation(a, b) == Relation::Same <==> a == b,
{
    lemma_key_lt_total(a, b);
    lemma_key_lt_irreflexive(a);
}

} // verus!
