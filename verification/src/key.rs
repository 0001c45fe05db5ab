//! Keys are byte strings, ordered byte by byte; a proper prefix sorts before
//! the string it is a prefix of.

use vstd::prelude::*;

verus! {

/// `a` sorts strictly before `b`.
pub open spec fn key_lt(a: Seq<u8>, b: Seq<u8>) -> bool
    decreases a.len(),
{
    if b.len() == 0 {
        false
    } else if a.len() == 0 {
        true
    } else if a[0] != b[0] {
        a[0] < b[0]
    } else {
        key_lt(a.skip(1), b.skip(1))
    }
}

/// `a` sorts before `b` or equals it.
pub open spec fn key_le(a: Seq<u8>, b: Seq<u8>) -> bool {
    !key_lt(b, a)
}

/// Each key is at most the keys after it.
pub open spec fn keys_sorted(keys: Seq<Seq<u8>>) -> bool {
    forall|i: int, j: int| 0 <= i < j < keys.len() ==> key_le(#[trigger] keys[i], #[trigger] keys[j])
}

/// Each key is strictly before the keys after it.
pub open spec fn keys_strictly_sorted(keys: Seq<Seq<u8>>) -> bool {
    forall|i: int, j: int| 0 <= i < j < keys.len() ==> key_lt(#[trigger] keys[i], #[trigger] keys[j])
}

/// No key sorts before itself.
pub proof fn lemma_key_lt_irreflexive(a: Seq<u8>)
    ensures
        !key_lt(a, a),
    decreases a.len(),
{
    if a.len() > 0 {
        lemma_key_lt_irreflexive(a.skip(1));
    }
}

/// Two keys of which neither sorts before the other are the same key.
pub proof fn lemma_key_lt_total(a: Seq<u8>, b: Seq<u8>)
    requires
        !key_lt(a, b),
        !key_lt(b, a),
    ensures
        a == b,
    decreases a.len(),
{
    if a.len() > 0 && b.len() > 0 {
        lemma_key_lt_total(a.skip(1), b.skip(1));
        assert(a =~= seq![a[0]] + a.skip(1));
        assert(b =~= seq![b[0]] + b.skip(1));
    } else {
        assert(a =~= b);
    }
}

/// Before is transitive.
pub proof fn lemma_key_lt_transitive(a: Seq<u8>, b: Seq<u8>, c: Seq<u8>)
    requires
        key_lt(a, b),
        key_lt(b, c),
    ensures
        key_lt(a, c),
    decreases a.len(),
{
    if a.len() > 0 && a[0] == b[0] && b[0] == c[0] {
        lemma_key_lt_transitive(a.skip(1), b.skip(1), c.skip(1));
    }
}

/// Before-or-equal is transitive.
pub proof fn lemma_key_le_transitive(a: Seq<u8>, b: Seq<u8>, c: Seq<u8>)
    requires
        key_le(a, b),
        key_le(b, c),
    ensures
        key_le(a, c),
{
    if key_lt(c, a) {
        if key_lt(b, c) {
            lemma_key_lt_transitive(b, c, a);
        } else {
            lemma_key_lt_total(b, c);
        }
    }
}

/// Whether `a` sorts strictly before `b`.
pub fn key_less(a: &[u8], b: &[u8]) -> (less: bool)
    ensures
        less == key_lt(a@, b@),
{
    let mut i: usize = 0;
    assert(a@.skip(0) =~= a@);
    assert(b@.skip(0) =~= b@);
    while i < a.len() && i < b.len()
        invariant
            i <= a@.len(),
            i <= b@.len(),
            key_lt(a@, b@) == key_lt(a@.skip(i as int), b@.skip(i as int)),
        decreases a@.len() - i,
    {
        if a[i] != b[i] {
            return a[i] < b[i];
        }
        assert(a@.skip(i as int).skip(1) =~= a@.skip(i + 1));
        assert(b@.skip(i as int).skip(1) =~= b@.skip(i + 1));
        i += 1;
    }
    a.len() < b.len()
}

} // verus!
