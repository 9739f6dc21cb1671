//! The order of dictionary keys: byte-lexicographic, as the canonical form
//! of a dictionary requires.

use vstd::prelude::*;

verus! {

/// `left` comes strictly before `right` in byte-lexicographic order: at the
/// first position where the two differ `left` holds the smaller byte, or
/// `left` ends there and `right` goes on.
pub open spec fn precedes(left: Seq<u8>, right: Seq<u8>) -> bool
    decreases left.len(),
{
    if right.len() == 0 {
        false
    } else if left.len() == 0 {
        true
    } else if left[0] != right[0] {
        left[0] < right[0]
    } else {
        precedes(left.skip(1), right.skip(1))
    }
}

/// Where one key stands relative to another.
#[derive(Debug, Clone, Copy, PartialEq, Eq, Structural)]
pub enum Placement {
    Before,
    Same,
    After,
}

/// No key comes before itself.
pub proof fn lemma_precedes_irreflexive(key: Seq<u8>)
    ensures
        !precedes(key, key),
    decreases key.len(),
{
    if key.len() > 0 {
        lemma_precedes_irreflexive(key.skip(1));
    }
}

/// The order is transitive.
pub proof fn lemma_precedes_transitive(a: Seq<u8>, b: Seq<u8>, c: Seq<u8>)
    requires
        precedes(a, b),
        precedes(b, c),
    ensures
        precedes(a, c),
    decreases a.len(),
{
    if a.len() > 0 && a[0] == b[0] && b[0] == c[0] {
        lemma_precedes_transitive(a.skip(1), b.skip(1), c.skip(1));
    }
}

/// The order is total: of two different keys one comes before the other.
pub proof fn lemma_precedes_total(a: Seq<u8>, b: Seq<u8>)
    ensures
        a == b || precedes(a, b) || precedes(b, a),
    decreases a.len(),
{
    if a.len() == 0 || b.len() == 0 {
        if a.len() == 0 && b.len() == 0 {
            assert(a =~= b);
        }
    } else if a[0] == b[0] {
        let a_rest = a.skip(1);
        let b_rest = b.skip(1);
        lemma_precedes_total(a_rest, b_rest);
        if a_rest == b_rest {
            assert(a.len() == b.len()) by {
                assert(a_rest.len() == a.len() - 1);
                assert(b_rest.len() == b.len() - 1);
            }
            assert forall|i: int| 0 <= i < a.len() implies a[i] == b[i] by {
                if i > 0 {
                    assert(a[i] == a_rest[i - 1]);
                    assert(b[i] == b_rest[i - 1]);
                }
            }
            assert(a =~= b);
        }
    }
}

/// Two keys are never each before the other.
pub proof fn lemma_precedes_asymmetric(a: Seq<u8>, b: Seq<u8>)
    requires
        precedes(a, b),
    ensures
        !precedes(b, a),
        a != b,
{
    lemma_precedes_irreflexive(a);
    if precedes(b, a) {
        lemma_precedes_transitive(a, b, a);
    }
}

/// A prefix that two keys share does not bear on their order.
pub proof fn lemma_precedes_skips_common_prefix(a: Seq<u8>, b: Seq<u8>, shared: int)
    requires
        0 <= shared <= a.len(),
        shared <= b.len(),
        a.take(shared) == b.take(shared),
    ensures
        precedes(a, b) == precedes(a.skip(shared), b.skip(shared)),
    decreases shared,
{
    if shared == 0 {
        assert(a.skip(0) =~= a);
        assert(b.skip(0) =~= b);
    } else {
        assert(a[0] == a.take(shared)[0]);
        assert(b[0] == b.take(shared)[0]);
        assert(a.skip(1).take(shared - 1) =~= a.take(shared).skip(1));
        assert(b.skip(1).take(shared - 1) =~= b.take(shared).skip(1));
        lemma_precedes_skips_common_prefix(a.skip(1), b.skip(1), shared - 1);
        assert(a.skip(1).skip(shared - 1) =~= a.skip(shared));
        assert(b.skip(1).skip(shared - 1) =~= b.skip(shared));
    }
}

/// Compares two keys byte by byte.
pub fn compare(left: &[u8], right: &[u8]) -> (placement: Placement)
    ensures
        placement == Placement::Before <==> precedes(left@, right@),
        placement == Placement::Same <==> left@ == right@,
        placement == Placement::After <==> precedes(right@, left@),
{
    let mut index: usize = 0;
    while index < left.len() && index < right.len()
        invariant
            index <= left.len(),
            index <= right.len(),
            left@.take(index as int) == right@.take(index as int),
        decreases left.len() - index,
    {
        if left[index] != right[index] {
            proof {
                lemma_precedes_skips_common_prefix(left@, right@, index as int);
                lemma_precedes_skips_common_prefix(right@, left@, index as int);
                assert(left@.skip(index as int)[0] == left@[index as int]);
                assert(right@.skip(index as int)[0] == right@[index as int]);
                if left[index as int] < right[index as int] {
                    lemma_precedes_asymmetric(left@, right@);
                } else {
                    lemma_precedes_asymmetric(right@, left@);
                }
            }
            return if left[index] < right[index] {
                Placement::Before
            } else {
                Placement::After
            };
        }
        assert(left@.take(index + 1) =~= left@.take(index as int).push(left@[index as int]));
        assert(right@.take(index + 1) =~= right@.take(index as int).push(right@[index as int]));
        index += 1;
    }
    proof {
        lemma_precedes_skips_common_prefix(left@, right@, index as int);
        lemma_precedes_skips_common_prefix(right@, left@, index as int);
        if index < right.len() {
            lemma_precedes_asymmetric(left@, right@);
        } else if index < left.len() {
            lemma_precedes_asymmetric(right@, left@);
        } else {
            assert(left@ =~= left@.take(index as int));
            assert(right@ =~= right@.take(index as int));
            lemma_precedes_irreflexive(left@);
        }
    }
    if index < right.len() {
        Placement::Before
    } else if index < left.len() {
        Placement::After
    } else {
        Placement::Same
    }
}

} // verus!
