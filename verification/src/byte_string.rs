//! Byte strings and their lexicographic order.

use bytes::Bytes;
use vstd::prelude::*;

verus! {

/// The outside type `bytes::Bytes`, a cheaply cloneable string of bytes.
#[verifier::external_type_specification]
#[verifier::external_body]
pub struct ExBytes(bytes::Bytes);

/// The bytes that a `bytes::Bytes` holds.
pub uninterp spec fn contents(b: Bytes) -> Seq<u8>;

/// `<bytes::Bytes as AsRef<[u8]>>::as_ref`: the slice of the bytes that are held.
#[verifier::external_body]
pub(crate) fn bytes_as_slice(b: &Bytes) -> (slice: &[u8])
    ensures
        slice@ == contents(*b),
{
    b.as_ref()
}

/// `<bytes::Bytes as Clone>::clone`: the copy holds the same bytes.
#[verifier::external_body]
pub(crate) fn bytes_clone(b: &Bytes) -> (copy: Bytes)
    ensures
        contents(copy) == contents(*b),
{
    b.clone()
}

/// How one byte string is ordered against another.
#[derive(Debug, Clone, Copy, PartialEq, Eq, Structural)]
pub enum KeyOrder {
    Less,
    Equal,
    Greater,
}

/// Whether `a` comes before `b` lexicographically: up to some position they agree, and there
/// either `a` ends while `b` goes on, or the byte of `a` is less than that of `b`.
pub open spec fn lex_less(a: Seq<u8>, b: Seq<u8>) -> bool {
    exists|i: int| #[trigger] differs_at(a, b, i)
}

/// Whether `a` and `b` agree up to position `i`, and `a` comes before `b` because of what
/// stands there.
pub open spec fn differs_at(a: Seq<u8>, b: Seq<u8>, i: int) -> bool {
    &&& 0 <= i <= a.len()
    &&& i < b.len()
    &&& forall|j: int| 0 <= j < i ==> #[trigger] a[j] == b[j]
    &&& i == a.len() || a[i] < b[i]
}

/// The order of two byte strings.
pub open spec fn key_order(a: Seq<u8>, b: Seq<u8>) -> KeyOrder {
    if a == b {
        KeyOrder::Equal
    } else if lex_less(a, b) {
        KeyOrder::Less
    } else {
        KeyOrder::Greater
    }
}

/// `<bytes::Bytes as Ord>::cmp`: the lexicographic order of the bytes that are held.
#[verifier::external_body]
pub(crate) fn bytes_compare(a: &Bytes, b: &Bytes) -> (order: KeyOrder)
    ensures
        order == key_order(contents(*a), contents(*b)),
{
    match a.cmp(b) {
        std::cmp::Ordering::Less => KeyOrder::Less,
        std::cmp::Ordering::Equal => KeyOrder::Equal,
        std::cmp::Ordering::Greater => KeyOrder::Greater,
    }
}

/// No byte string comes before itself.
pub proof fn law_order_is_irreflexive(a: Seq<u8>)
    ensures
        !lex_less(a, a),
{
}

/// Of two different byte strings, one comes before the other.
pub proof fn law_order_is_total(a: Seq<u8>, b: Seq<u8>)
    ensures
        a == b || lex_less(a, b) || lex_less(b, a),
{
    lemma_first_difference(a, b, 0);
}

/// Byte strings that agree up to some position are equal or differ at a first position after it.
proof fn lemma_first_difference(a: Seq<u8>, b: Seq<u8>, from: int)
    requires
        0 <= from <= a.len(),
        from <= b.len(),
        forall|j: int| 0 <= j < from ==> #[trigger] a[j] == b[j],
    ensures
        a == b || lex_less(a, b) || lex_less(b, a),
    decreases a.len() - from,
{
    if from == a.len() {
        if from == b.len() {
            assert(a =~= b);
        } else {
            assert(differs_at(a, b, from));
        }
    } else if from == b.len() {
        assert(differs_at(b, a, from));
    } else if a[from] < b[from] {
        assert(differs_at(a, b, from));
    } else if b[from] < a[from] {
        assert(differs_at(b, a, from));
    } else {
        lemma_first_difference(a, b, from + 1);
    }
}

/// What comes before a byte string comes before all that it comes before.
pub proof fn law_order_is_transitive(a: Seq<u8>, b: Seq<u8>, c: Seq<u8>)
    requires
        lex_less(a, b),
        lex_less(b, c),
    ensures
        lex_less(a, c),
{
    let i = choose|i: int| #[trigger] differs_at(a, b, i);
    let j = choose|j: int| #[trigger] differs_at(b, c, j);
    if i <= j {
        assert forall|k: int| 0 <= k < i implies #[trigger] a[k] == c[k] by {
            assert(a[k] == b[k] && b[k] == c[k]);
        }
        if i < j {
            assert(b[i] == c[i]);
        }
        assert(differs_at(a, c, i));
    } else {
        assert forall|k: int| 0 <= k < j implies #[trigger] a[k] == c[k] by {
            assert(a[k] == b[k] && b[k] == c[k]);
        }
        assert(a[j] == b[j]);
        assert(differs_at(a, c, j));
    }
}

/// Two byte strings do not both come before each other.
pub proof fn law_order_is_asymmetric(a: Seq<u8>, b: Seq<u8>)
    requires
        lex_less(a, b),
    ensures
        !lex_less(b, a),
{
    if lex_less(b, a) {
        law_order_is_transitive(a, b, a);
        law_order_is_irreflexive(a);
    }
}

/// The first byte in which two byte strings differ decides their order.
pub proof fn law_first_difference_decides(a: Seq<u8>, b: Seq<u8>, i: int)
    requires
        0 <= i < a.len(),
        i < b.len(),
        forall|j: int| 0 <= j < i ==> #[trigger] a[j] == b[j],
        a[i] < b[i],
    ensures
        lex_less(a, b),
        !lex_less(b, a),
        key_order(a, b) == KeyOrder::Less,
        key_order(b, a) == KeyOrder::Greater,
{
    assert(differs_at(a, b, i));
    law_order_is_asymmetric(a, b);
}

/// A byte string comes before those that go on after it.
pub proof fn law_beginning_comes_first(a: Seq<u8>, rest: Seq<u8>)
    requires
        rest.len() > 0,
    ensures
        lex_less(a, a + rest),
        !lex_less(a + rest, a),
        key_order(a, a + rest) == KeyOrder::Less,
        key_order(a + rest, a) == KeyOrder::Greater,
{
    assert(differs_at(a, a + rest, a.len() as int));
    law_order_is_asymmetric(a, a + rest);
}

/// Byte strings are ordered alike exactly if they are equal, and swapping them turns the order
/// around.
pub proof fn law_order_turns_around(a: Seq<u8>, b: Seq<u8>)
    ensures
        key_order(a, b) == KeyOrder::Equal <==> a == b,
        key_order(a, b) == KeyOrder::Less <==> key_order(b, a) == KeyOrder::Greater,
        key_order(a, b) == KeyOrder::Less <==> lex_less(a, b),
{
    law_order_is_total(a, b);
    law_order_is_irreflexive(a);
    if lex_less(a, b) {
        law_order_is_asymmetric(a, b);
    }
}

/// The lexicographic order of two slices.
pub fn compare_slices(a: &[u8], b: &[u8]) -> (order: KeyOrder)
    ensures
        order == key_order(a@, b@),
{
    let mut i: usize = 0;
    while i < a.len() && i < b.len()
        invariant
            i <= a@.len(),
            i <= b@.len(),
            forall|j: int| 0 <= j < i ==> #[trigger] a@[j] == b@[j],
        decreases a@.len() - i,
    {
        if a[i] < b[i] {
            assert(differs_at(a@, b@, i as int));
            assert(a@ != b@);
            return KeyOrder::Less;
        }
        if b[i] < a[i] {
            proof {
                assert(differs_at(b@, a@, i as int));
                law_order_is_asymmetric(b@, a@);
                assert(a@ != b@);
            }
            return KeyOrder::Greater;
        }
        i = i + 1;
    }
    if i < b.len() {
        assert(differs_at(a@, b@, i as int));
        KeyOrder::Less
    } else if i < a.len() {
        proof {
            assert(differs_at(b@, a@, i as int));
            law_order_is_asymmetric(b@, a@);
        }
        KeyOrder::Greater
    } else {
        assert(a@ =~= b@);
        KeyOrder::Equal
    }
}

/// Whether the byte string starts with the prefix.
pub fn starts_with(key: &[u8], prefix: &[u8]) -> (yes: bool)
    ensures
        yes == prefix@.is_prefix_of(key@),
{
    if key.len() < prefix.len() {
        return false;
    }
    let mut i: usize = 0;
    while i < prefix.len()
        invariant
            i <= prefix@.len() <= key@.len(),
            forall|j: int| 0 <= j < i ==> #[trigger] prefix@[j] == key@[j],
        decreases prefix@.len() - i,
    {
        if prefix[i] != key[i] {
            assert(key@.subrange(0, prefix@.len() as int)[i as int] == key@[i as int]);
            return false;
        }
        i = i + 1;
    }
    assert(prefix@ =~= key@.subrange(0, prefix@.len() as int));
    true
}

} // verus!
