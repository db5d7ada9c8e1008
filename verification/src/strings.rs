//! String comparison helpers.
//!
//! Card names are `String`s; lookups compare them by character sequence
//! and pair keys are canonicalized by the lexicographic order of their
//! UTF-8 bytes (which coincides with code-point order).

use vstd::prelude::*;
use vstd::string::StringSliceAdditionalSpecFns;

verus! {

/// Relies on `str`'s `PartialEq`: two string slices are equal exactly when
/// their character sequences are equal.
#[verifier::external_body]
pub(crate) fn str_eq(a: &str, b: &str) -> (r: bool)
    ensures
        r == (a@ == b@),
{
    a == b
}

/// Lexicographic order on byte sequences: `a` is at most `b`.
pub open spec fn bytes_le(a: Seq<u8>, b: Seq<u8>) -> bool
    decreases a.len(),
{
    if a.len() == 0 {
        true
    } else if b.len() == 0 {
        false
    } else if a[0] < b[0] {
        true
    } else if a[0] > b[0] {
        false
    } else {
        bytes_le(a.skip(1), b.skip(1))
    }
}

/// The order is decided after any shared prefix.
proof fn lemma_bytes_le_skip(a: Seq<u8>, b: Seq<u8>, i: int)
    requires
        0 <= i <= a.len(),
        i <= b.len(),
        forall|j: int| 0 <= j < i ==> a[j] == b[j],
    ensures
        bytes_le(a, b) == bytes_le(a.skip(i), b.skip(i)),
    decreases i,
{
    if i == 0 {
        assert(a.skip(0) =~= a);
        assert(b.skip(0) =~= b);
    } else {
        assert(a[0] == b[0]);
        lemma_bytes_le_skip(a.skip(1), b.skip(1), i - 1);
        assert(a.skip(1).skip(i - 1) =~= a.skip(i));
        assert(b.skip(1).skip(i - 1) =~= b.skip(i));
    }
}

/// Compares two strings in the lexicographic order of their UTF-8 bytes.
pub fn str_le(a: &str, b: &str) -> (r: bool)
    ensures
        r == bytes_le(a.spec_bytes(), b.spec_bytes()),
{
    let ab: &[u8] = a.as_bytes();
    let bb: &[u8] = b.as_bytes();
    let mut i: usize = 0;
    while i < ab.len() && i < bb.len()
        invariant
            ab@ == a.spec_bytes(),
            bb@ == b.spec_bytes(),
            i <= ab.len(),
            i <= bb.len(),
            forall|j: int| 0 <= j < i ==> ab@[j] == bb@[j],
        decreases ab.len() - i,
    {
        if ab[i] < bb[i] {
            proof {
                lemma_bytes_le_skip(ab@, bb@, i as int);
            }
            return true;
        }
        if ab[i] > bb[i] {
            proof {
                lemma_bytes_le_skip(ab@, bb@, i as int);
            }
            return false;
        }
        i = i + 1;
    }
    proof {
        lemma_bytes_le_skip(ab@, bb@, i as int);
    }
    i >= ab.len()
}

} // verus!
