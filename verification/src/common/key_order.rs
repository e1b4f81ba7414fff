//! Lexicographic order on byte strings, the order in which index keys are kept.

use vstd::prelude::*;

verus! {

/// `a` sorts strictly before `b` in lexicographic byte order (a proper prefix
/// sorts first), which is the order of `<` on `[u8]`.
pub open spec fn key_lt(a: Seq<u8>, b: Seq<u8>) -> bool
    decreases a.len(),
{
    if a.len() == 0 {
        b.len() > 0
    } else if b.len() == 0 {
        false
    } else if a[0] < b[0] {
        true
    } else if a[0] > b[0] {
        false
    } else {
        key_lt(a.drop_first(), b.drop_first())
    }
}

/// `a` sorts before `b` or equals it.
pub open spec fn key_le(a: Seq<u8>, b: Seq<u8>) -> bool {
    key_lt(a, b) || a == b
}

/// No key sorts before itself.
pub proof fn lemma_key_lt_irreflexive(a: Seq<u8>)
    ensures
        !key_lt(a, a),
    decreases a.len(),
{
    if a.len() > 0 {
        lemma_key_lt_irreflexive(a.drop_first());
    }
}

/// Of two keys that sort one before the other, the second does not sort
/// before the first.
pub proof fn lemma_key_lt_asymmetric(a: Seq<u8>, b: Seq<u8>)
    ensures
        key_lt(a, b) ==> !key_lt(b, a),
    decreases a.len(),
{
    if a.len() > 0 && b.len() > 0 && a[0] == b[0] {
        lemma_key_lt_asymmetric(a.drop_first(), b.drop_first());
    }
}

/// The order is transitive.
pub proof fn lemma_key_lt_transitive(a: Seq<u8>, b: Seq<u8>, c: Seq<u8>)
    requires
        key_lt(a, b),
        key_lt(b, c),
    ensures
        key_lt(a, c),
    decreases a.len(),
{
    if a.len() > 0 && b.len() > 0 && c.len() > 0 && a[0] == b[0] && b[0] == c[0] {
        lemma_key_lt_transitive(a.drop_first(), b.drop_first(), c.drop_first());
    }
}

/// Two distinct keys are ordered one way or the other.
pub proof fn lemma_key_lt_total(a: Seq<u8>, b: Seq<u8>)
    ensures
        a == b || key_lt(a, b) || key_lt(b, a),
    decreases a.len(),
{
    if a.len() > 0 && b.len() > 0 && a[0] == b[0] {
        lemma_key_lt_total(a.drop_first(), b.drop_first());
        if a.drop_first() == b.drop_first() {
            assert(a =~= b) by {
                assert forall|i: int| 0 <= i < a.len() implies a[i] == b[i] by {
                    if i > 0 {
                        assert(a[i] == a.drop_first()[i - 1]);
                        assert(b[i] == b.drop_first()[i - 1]);
                    }
                }
            }
        }
    }
}

/// `key_le` is transitive, and mixing it with `key_lt` keeps strictness.
pub proof fn lemma_key_le_transitive(a: Seq<u8>, b: Seq<u8>, c: Seq<u8>)
    ensures
        key_le(a, b) && key_le(b, c) ==> key_le(a, c),
        key_le(a, b) && key_lt(b, c) ==> key_lt(a, c),
        key_lt(a, b) && key_le(b, c) ==> key_lt(a, c),
{
    if key_lt(a, b) && key_lt(b, c) {
        lemma_key_lt_transitive(a, b, c);
    }
}

/// Every fact about the order that proofs over sorted pages use.
pub proof fn lemma_key_order_facts()
    ensures
        forall|a: Seq<u8>| !key_lt(a, a),
        forall|a: Seq<u8>, b: Seq<u8>| #[trigger] key_lt(a, b) ==> !key_lt(b, a),
        forall|a: Seq<u8>, b: Seq<u8>| a == b || #[trigger] key_lt(a, b) || key_lt(b, a),
        forall|a: Seq<u8>, b: Seq<u8>, c: Seq<u8>|
            #[trigger] key_lt(a, b) && #[trigger] key_lt(b, c) ==> key_lt(a, c),
{
    assert forall|a: Seq<u8>| !key_lt(a, a) by {
        lemma_key_lt_irreflexive(a);
    }
    assert forall|a: Seq<u8>, b: Seq<u8>| #[trigger] key_lt(a, b) implies !key_lt(b, a) by {
        lemma_key_lt_asymmetric(a, b);
    }
    assert forall|a: Seq<u8>, b: Seq<u8>| a == b || #[trigger] key_lt(a, b) || key_lt(b, a) by {
        lemma_key_lt_total(a, b);
    }
    assert forall|a: Seq<u8>, b: Seq<u8>, c: Seq<u8>|
        #[trigger] key_lt(a, b) && #[trigger] key_lt(b, c) implies key_lt(a, c) by {
        lemma_key_lt_transitive(a, b, c);
    }
}

/// `a < b` on byte strings, as Rust's `<` on `[u8]` orders them.
pub fn bytes_lt(a: &[u8], b: &[u8]) -> (r: bool)
    ensures
        r == key_lt(a@, b@),
{
    let mut i: usize = 0;
    assert(a@.skip(0) =~= a@);
    assert(b@.skip(0) =~= b@);
    while i < a.len() && i < b.len() && a[i] == b[i]
        invariant
            i <= a.len(),
            i <= b.len(),
            key_lt(a@, b@) == key_lt(a@.skip(i as int), b@.skip(i as int)),
        decreases a.len() - i,
    {
        assert(a@.skip(i as int).drop_first() =~= a@.skip(i + 1));
        assert(b@.skip(i as int).drop_first() =~= b@.skip(i + 1));
        i = i + 1;
    }
    if i == a.len() {
        i < b.len()
    } else if i == b.len() {
        false
    } else {
        a[i] < b[i]
    }
}

/// `a == b` on byte strings.
pub fn bytes_eq(a: &[u8], b: &[u8]) -> (r: bool)
    ensures
        r == (a@ == b@),
{
    if a.len() != b.len() {
        return false;
    }
    let mut i: usize = 0;
    while i < a.len()
        invariant
            a.len() == b.len(),
            i <= a.len(),
            forall|j: int| 0 <= j < i ==> a@[j] == b@[j],
        decreases a.len() - i,
    {
        if a[i] != b[i] {
            return false;
        }
        i = i + 1;
    }
    assert(a@ =~= b@);
    true
}

/// `a <= b` on byte strings.
pub fn bytes_le(a: &[u8], b: &[u8]) -> (r: bool)
    ensures
        r == key_le(a@, b@),
{
    bytes_lt(a, b) || bytes_eq(a, b)
}

/// The byte strings held by a list of owned keys.
pub open spec fn keys_view(v: Seq<Vec<u8>>) -> Seq<Seq<u8>> {
    v.map_values(|k: Vec<u8>| k@)
}

/// Length of the longest prefix of `ks` whose keys all sort at or before `k`;
/// on a sorted list this is the index just after the last key `<= k`.
pub open spec fn prefix_le_len(ks: Seq<Seq<u8>>, k: Seq<u8>) -> nat
    decreases ks.len(),
{
    if ks.len() == 0 {
        0
    } else if key_le(ks[0], k) {
        1 + prefix_le_len(ks.drop_first(), k)
    } else {
        0
    }
}

/// Length of the longest prefix of `ks` whose keys all sort strictly before
/// `k`; on a sorted list this is the index of the first key `>= k`.
pub open spec fn prefix_lt_len(ks: Seq<Seq<u8>>, k: Seq<u8>) -> nat
    decreases ks.len(),
{
    if ks.len() == 0 {
        0
    } else if key_lt(ks[0], k) {
        1 + prefix_lt_len(ks.drop_first(), k)
    } else {
        0
    }
}

/// What `prefix_le_len` is, element by element.
pub proof fn lemma_prefix_le_len(ks: Seq<Seq<u8>>, k: Seq<u8>)
    ensures
        prefix_le_len(ks, k) <= ks.len(),
        forall|j: int| 0 <= j < prefix_le_len(ks, k) ==> key_le(#[trigger] ks[j], k),
        prefix_le_len(ks, k) < ks.len() ==> !key_le(ks[prefix_le_len(ks, k) as int], k),
    decreases ks.len(),
{
    if ks.len() > 0 && key_le(ks[0], k) {
        lemma_prefix_le_len(ks.drop_first(), k);
        assert forall|j: int| 0 <= j < prefix_le_len(ks, k) implies key_le(#[trigger] ks[j], k) by {
            if j > 0 {
                assert(ks[j] == ks.drop_first()[j - 1]);
            }
        }
    }
}

/// What `prefix_lt_len` is, element by element.
pub proof fn lemma_prefix_lt_len(ks: Seq<Seq<u8>>, k: Seq<u8>)
    ensures
        prefix_lt_len(ks, k) <= ks.len(),
        forall|j: int| 0 <= j < prefix_lt_len(ks, k) ==> key_lt(#[trigger] ks[j], k),
        prefix_lt_len(ks, k) < ks.len() ==> !key_lt(ks[prefix_lt_len(ks, k) as int], k),
    decreases ks.len(),
{
    if ks.len() > 0 && key_lt(ks[0], k) {
        lemma_prefix_lt_len(ks.drop_first(), k);
        assert forall|j: int| 0 <= j < prefix_lt_len(ks, k) implies key_lt(#[trigger] ks[j], k) by {
            if j > 0 {
                assert(ks[j] == ks.drop_first()[j - 1]);
            }
        }
    }
}

/// The two prefix lengths are fixed by the element-wise facts above.
pub proof fn lemma_prefix_len_unique(ks: Seq<Seq<u8>>, k: Seq<u8>, n: int, strict: bool)
    requires
        0 <= n <= ks.len(),
        forall|j: int| 0 <= j < n ==> if strict { key_lt(#[trigger] ks[j], k) } else { key_le(ks[j], k) },
        n < ks.len() ==> if strict { !key_lt(ks[n], k) } else { !key_le(ks[n], k) },
    ensures
        strict ==> n == prefix_lt_len(ks, k),
        !strict ==> n == prefix_le_len(ks, k),
{
    lemma_prefix_le_len(ks, k);
    lemma_prefix_lt_len(ks, k);
}

/// Index of the first key of `keys` that sorts after `key` (all earlier keys
/// sort at or before it).
pub fn upper_bound(keys: &Vec<Vec<u8>>, key: &[u8]) -> (r: usize)
    ensures
        r == prefix_le_len(keys_view(keys@), key@),
{
    let ghost ks = keys_view(keys@);
    let mut i: usize = 0;
    while i < keys.len()
        invariant
            i <= keys.len(),
            ks == keys_view(keys@),
            forall|j: int| 0 <= j < i ==> key_le(#[trigger] ks[j], key@),
        decreases keys.len() - i,
    {
        if !bytes_le(keys[i].as_slice(), key) {
            proof {
                lemma_prefix_len_unique(ks, key@, i as int, false);
            }
            return i;
        }
        i = i + 1;
    }
    proof {
        lemma_prefix_len_unique(ks, key@, i as int, false);
    }
    i
}

/// Index of the first key of `keys` that does not sort before `key`.
pub fn lower_bound(keys: &Vec<Vec<u8>>, key: &[u8]) -> (r: usize)
    ensures
        r == prefix_lt_len(keys_view(keys@), key@),
{
    let ghost ks = keys_view(keys@);
    let mut i: usize = 0;
    while i < keys.len()
        invariant
            i <= keys.len(),
            ks == keys_view(keys@),
            forall|j: int| 0 <= j < i ==> key_lt(#[trigger] ks[j], key@),
        decreases keys.len() - i,
    {
        if !bytes_lt(keys[i].as_slice(), key) {
            proof {
                lemma_prefix_len_unique(ks, key@, i as int, true);
            }
            return i;
        }
        i = i + 1;
    }
    proof {
        lemma_prefix_len_unique(ks, key@, i as int, true);
    }
    i
}

/// Index of the first key of `ks` equal to `k`, or the length of `ks` when
/// no key equals it.
pub open spec fn first_match(ks: Seq<Seq<u8>>, k: Seq<u8>) -> nat
    decreases ks.len(),
{
    if ks.len() == 0 {
        0
    } else if ks[0] == k {
        0
    } else {
        1 + first_match(ks.drop_first(), k)
    }
}

/// What `first_match` is, element by element.
pub proof fn lemma_first_match(ks: Seq<Seq<u8>>, k: Seq<u8>)
    ensures
        first_match(ks, k) <= ks.len(),
        forall|j: int| 0 <= j < first_match(ks, k) ==> #[trigger] ks[j] != k,
        first_match(ks, k) < ks.len() ==> ks[first_match(ks, k) as int] == k,
        first_match(ks, k) == ks.len() <==> !ks.contains(k),
    decreases ks.len(),
{
    if ks.len() > 0 && ks[0] != k {
        lemma_first_match(ks.drop_first(), k);
        assert forall|j: int| 0 <= j < first_match(ks, k) implies #[trigger] ks[j] != k by {
            if j > 0 {
                assert(ks[j] == ks.drop_first()[j - 1]);
            }
        }
        if first_match(ks, k) < ks.len() {
            assert(ks[first_match(ks, k) as int] == ks.drop_first()[first_match(ks, k) - 1]);
        }
        if ks.contains(k) {
            let j = choose|j: int| 0 <= j < ks.len() && ks[j] == k;
            assert(ks.drop_first()[j - 1] == k);
        }
        if ks.drop_first().contains(k) {
            let j = choose|j: int| 0 <= j < ks.drop_first().len() && ks.drop_first()[j] == k;
            assert(ks[j + 1] == k);
        }
    }
    if ks.len() > 0 && ks[0] == k {
        assert(ks.contains(k));
    }
}

/// Index of the first key of `keys` equal to `key`, or the length of `keys`.
pub fn find_first(keys: &Vec<Vec<u8>>, key: &[u8]) -> (r: usize)
    ensures
        r == first_match(keys_view(keys@), key@),
{
    let ghost ks = keys_view(keys@);
    proof {
        lemma_first_match(ks, key@);
    }
    let mut i: usize = 0;
    while i < keys.len()
        invariant
            i <= keys.len(),
            ks == keys_view(keys@),
            first_match(ks, key@) <= ks.len(),
            forall|j: int| 0 <= j < first_match(ks, key@) ==> #[trigger] ks[j] != key@,
            first_match(ks, key@) < ks.len() ==> ks[first_match(ks, key@) as int] == key@,
            forall|j: int| 0 <= j < i ==> #[trigger] ks[j] != key@,
        decreases keys.len() - i,
    {
        if bytes_eq(keys[i].as_slice(), key) {
            assert(ks[i as int] == key@);
            proof {
                if first_match(ks, key@) < i {
                    assert(ks[first_match(ks, key@) as int] != key@);
                }
            }
            return i;
        }
        i = i + 1;
    }
    i
}

/// An owned copy of a byte string.
pub fn copy_bytes(k: &[u8]) -> (r: Vec<u8>)
    ensures
        r@ == k@,
{
    vstd::slice::slice_to_vec(k)
}

/// A copy of a list of owned keys.
pub fn copy_keys(v: &Vec<Vec<u8>>) -> (r: Vec<Vec<u8>>)
    ensures
        keys_view(r@) == keys_view(v@),
{
    let mut r: Vec<Vec<u8>> = Vec::new();
    let mut i: usize = 0;
    while i < v.len()
        invariant
            i <= v.len(),
            r@.len() == i,
            forall|j: int| 0 <= j < i ==> (#[trigger] r@[j])@ == v@[j]@,
        decreases v.len() - i,
    {
        r.push(copy_bytes(v[i].as_slice()));
        i = i + 1;
    }
    assert(keys_view(r@) =~= keys_view(v@));
    r
}

} // verus!
