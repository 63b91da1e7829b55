//! The order of names: texts compare by their UTF-8 bytes, position by
//! position, and a text comes before every text it is a proper prefix of.

use vstd::prelude::*;
use vstd::string::StringSliceAdditionalSpecFns;

verus! {

/// `a` comes before `b` in the lexicographic order of bytes.
pub open spec fn bytes_precede(a: Seq<u8>, b: Seq<u8>) -> bool
    decreases a.len(),
{
    if b.len() == 0 {
        false
    } else if a.len() == 0 {
        true
    } else if a[0] != b[0] {
        a[0] < b[0]
    } else {
        bytes_precede(a.drop_first(), b.drop_first())
    }
}

/// The text `a` comes before the text `b`.
pub open spec fn text_precedes(a: Seq<char>, b: Seq<char>) -> bool {
    bytes_precede(vstd::utf8::encode_utf8(a), vstd::utf8::encode_utf8(b))
}

/// No sequence of bytes precedes itself.
pub proof fn lemma_bytes_precede_is_irreflexive(a: Seq<u8>)
    ensures
        !bytes_precede(a, a),
    decreases a.len(),
{
    if a.len() > 0 {
        lemma_bytes_precede_is_irreflexive(a.drop_first());
    }
}

/// The order of bytes is a strict total order, hence a strict weak order:
/// nothing precedes itself, preceding is transitive, and so is not preceding.
pub proof fn lemma_bytes_precede_is_strict_weak_order(a: Seq<u8>, b: Seq<u8>, c: Seq<u8>)
    ensures
        !bytes_precede(a, a),
        bytes_precede(a, b) && bytes_precede(b, c) ==> bytes_precede(a, c),
        !bytes_precede(a, b) && !bytes_precede(b, c) ==> !bytes_precede(a, c),
    decreases a.len(),
{
    lemma_bytes_precede_is_irreflexive(a);
    if a.len() > 0 && b.len() > 0 && c.len() > 0 {
        lemma_bytes_precede_is_strict_weak_order(a.drop_first(), b.drop_first(), c.drop_first());
    }
}

/// Decides whether `a` comes before `b`.
pub fn name_comes_before(a: &str, b: &str) -> (r: bool)
    ensures
        r == text_precedes(a@, b@),
{
    let left = a.as_bytes();
    let right = b.as_bytes();
    let n: usize = left.len();
    let m: usize = right.len();
    let mut i: usize = 0;
    proof {
        assert(left@.skip(0) =~= left@);
        assert(right@.skip(0) =~= right@);
    }
    while i < n && i < m
        invariant
            n == left@.len(),
            m == right@.len(),
            left@ == a.spec_bytes(),
            right@ == b.spec_bytes(),
            0 <= i <= n,
            i <= m,
            bytes_precede(left@, right@) == bytes_precede(
                left@.skip(i as int),
                right@.skip(i as int),
            ),
        decreases n - i,
    {
        proof {
            assert(left@.skip(i as int).drop_first() =~= left@.skip(i + 1));
            assert(right@.skip(i as int).drop_first() =~= right@.skip(i + 1));
        }
        if left[i] != right[i] {
            return left[i] < right[i];
        }
        i += 1;
    }
    i < m
}

} // verus!
