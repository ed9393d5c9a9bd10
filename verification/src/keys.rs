//! Keys and key ranges. Keys are byte strings ordered lexicographically; a
//! range is half-open, and an empty end key stands for "no upper bound".

use vstd::prelude::*;

verus! {

/// `a` and `b` agree before position `i`, and at `i` either `a` ends while
/// `b` goes on or `a` holds the smaller byte.
pub open spec fn smaller_at(a: Seq<u8>, b: Seq<u8>, i: int) -> bool {
    &&& 0 <= i <= a.len()
    &&& i < b.len()
    &&& forall|j: int| 0 <= j < i ==> a[j] == b[j]
    &&& i < a.len() ==> a[i] < b[i]
}

/// Lexicographic "strictly before" on keys.
pub open spec fn key_lt(a: Seq<u8>, b: Seq<u8>) -> bool {
    exists|i: int| smaller_at(a, b, i)
}

/// Lexicographic "before or equal" on keys.
pub open spec fn key_le(a: Seq<u8>, b: Seq<u8>) -> bool {
    a == b || key_lt(a, b)
}

/// Whether `[start, end)` holds at least one key. An empty `end` is +∞.
pub open spec fn range_valid(start: Seq<u8>, end: Seq<u8>) -> bool {
    end.len() == 0 || key_lt(start, end)
}

/// Whether `key` lies in `[start, end)`. An empty `end` is +∞.
pub open spec fn range_contains(start: Seq<u8>, end: Seq<u8>, key: Seq<u8>) -> bool {
    key_le(start, key) && (end.len() == 0 || key_lt(key, end))
}

/// No key is before itself.
pub proof fn lemma_lt_irreflexive(a: Seq<u8>)
    ensures
        !key_lt(a, a),
{
    if key_lt(a, a) {
        let i = choose|i: int| smaller_at(a, a, i);
        assert(a[i] < a[i]);
    }
}

/// "Before" is transitive.
pub proof fn lemma_lt_transitive(a: Seq<u8>, b: Seq<u8>, c: Seq<u8>)
    requires
        key_lt(a, b),
        key_lt(b, c),
    ensures
        key_lt(a, c),
{
    let i = choose|i: int| smaller_at(a, b, i);
    let j = choose|j: int| smaller_at(b, c, j);
    if i <= j {
        assert(smaller_at(a, c, i));
    } else {
        assert(smaller_at(a, c, j));
    }
}

/// Two keys that agree before `i` are equal or ordered one way or the other.
proof fn lemma_compare_from(a: Seq<u8>, b: Seq<u8>, i: int)
    requires
        0 <= i <= a.len(),
        i <= b.len(),
        forall|j: int| 0 <= j < i ==> a[j] == b[j],
    ensures
        a == b || key_lt(a, b) || key_lt(b, a),
    decreases a.len() - i,
{
    if i == a.len() {
        if i == b.len() {
            assert(a =~= b);
        } else {
            assert(smaller_at(a, b, i));
        }
    } else if i == b.len() {
        assert(smaller_at(b, a, i));
    } else if a[i] < b[i] {
        assert(smaller_at(a, b, i));
    } else if b[i] < a[i] {
        assert(smaller_at(b, a, i));
    } else {
        lemma_compare_from(a, b, i + 1);
    }
}

/// Any two keys are equal or ordered one way or the other.
pub proof fn lemma_lt_total(a: Seq<u8>, b: Seq<u8>)
    ensures
        a == b || key_lt(a, b) || key_lt(b, a),
{
    lemma_compare_from(a, b, 0);
}

/// Two keys are never each before the other.
pub proof fn lemma_lt_asymmetric(a: Seq<u8>, b: Seq<u8>)
    requires
        key_lt(a, b),
    ensures
        !key_lt(b, a),
        a != b,
{
    lemma_lt_irreflexive(a);
    if key_lt(b, a) {
        lemma_lt_transitive(a, b, a);
    }
}

/// `a <= b < c` gives `a < c`.
pub proof fn lemma_le_lt_transitive(a: Seq<u8>, b: Seq<u8>, c: Seq<u8>)
    requires
        key_le(a, b),
        key_lt(b, c),
    ensures
        key_lt(a, c),
{
    if a != b {
        lemma_lt_transitive(a, b, c);
    }
}

/// `a < b <= c` gives `a < c`.
pub proof fn lemma_lt_le_transitive(a: Seq<u8>, b: Seq<u8>, c: Seq<u8>)
    requires
        key_lt(a, b),
        key_le(b, c),
    ensures
        key_lt(a, c),
{
    if b != c {
        lemma_lt_transitive(a, b, c);
    }
}

/// `a <= b` fails exactly when `b < a`.
pub proof fn lemma_le_iff_not_gt(a: Seq<u8>, b: Seq<u8>)
    ensures
        key_le(a, b) <==> !key_lt(b, a),
{
    lemma_lt_total(a, b);
    lemma_lt_irreflexive(a);
    if key_lt(a, b) {
        lemma_lt_asymmetric(a, b);
    }
}

/// Whether two keys hold the same bytes.
pub fn key_eq(a: &[u8], b: &[u8]) -> (r: bool)
    ensures
        r == (a@ == b@),
{
    if a.len() != b.len() {
        return false;
    }
    let mut i: usize = 0;
    while i < a.len()
        invariant
            a@.len() == b@.len(),
            0 <= i <= a@.len(),
            forall|j: int| 0 <= j < i ==> a@[j] == b@[j],
        decreases a@.len() - i,
    {
        if a[i] != b[i] {
            return false;
        }
        i += 1;
    }
    assert(a@ =~= b@);
    true
}

/// Whether `a` is strictly before `b`.
pub fn key_less(a: &[u8], b: &[u8]) -> (r: bool)
    ensures
        r == key_lt(a@, b@),
{
    let mut i: usize = 0;
    while i < a.len() && i < b.len()
        invariant
            0 <= i <= a@.len(),
            i <= b@.len(),
            forall|j: int| 0 <= j < i ==> a@[j] == b@[j],
        decreases a@.len() - i,
    {
        if a[i] < b[i] {
            assert(smaller_at(a@, b@, i as int));
            return true;
        }
        if a[i] > b[i] {
            assert(smaller_at(b@, a@, i as int));
            proof {
                lemma_lt_asymmetric(b@, a@);
            }
            return false;
        }
        i += 1;
    }
    if i < b.len() {
        assert(smaller_at(a@, b@, i as int));
        true
    } else {
        proof {
            if i < a@.len() {
                assert(smaller_at(b@, a@, i as int));
                lemma_lt_asymmetric(b@, a@);
            } else {
                assert(a@ =~= b@);
                lemma_lt_irreflexive(a@);
            }
        }
        false
    }
}

/// Whether `key` lies in `[start, end)`, an empty `end` being +∞.
pub fn key_in_range(start: &[u8], end: &[u8], key: &[u8]) -> (r: bool)
    ensures
        r == range_contains(start@, end@, key@),
{
    proof {
        lemma_le_iff_not_gt(start@, key@);
    }
    !key_less(key, start) && (end.len() == 0 || key_less(key, end))
}

/// A fresh copy of a key.
pub fn key_copy(key: &[u8]) -> (r: Vec<u8>)
    ensures
        r@ == key@,
{
    let mut r: Vec<u8> = Vec::new();
    r.extend_from_slice(key);
    assert(r@ =~= key@);
    r
}

} // verus!
