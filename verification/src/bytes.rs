//! Small verified helpers on byte strings.
//!
//! All file contents, names and identifiers in this crate are byte strings,
//! so equality and containment tests on them are needed everywhere.

use vstd::prelude::*;

verus! {

/// Byte-for-byte equality of two byte slices.
pub fn bytes_eq(a: &[u8], b: &[u8]) -> (r: bool)
    ensures
        r == (a@ == b@),
{
    if a.len() != b.len() {
        assert(a@ != b@);
        return false;
    }
    let mut i: usize = 0;
    while i < a.len()
        invariant
            i <= a.len(),
            a@.len() == b@.len(),
            forall|j: int| 0 <= j < i ==> a@[j] == b@[j],
        decreases a.len() - i,
    {
        if a[i] != b[i] {
            assert(a@ != b@);
            return false;
        }
        i += 1;
    }
    proof {
        assert(a@ =~= b@);
    }
    true
}

/// The byte strings a list of byte vectors holds.
pub open spec fn views(vs: Seq<Vec<u8>>) -> Seq<Seq<u8>> {
    vs.map_values(|v: Vec<u8>| v@)
}

/// Whether a sequence of byte strings contains the given byte string.
pub open spec fn seq_contains_bytes(hay: Seq<Seq<u8>>, needle: Seq<u8>) -> bool {
    exists|i: int| 0 <= i < hay.len() && hay[i] == needle
}

/// Membership in a concatenation is membership in either part.
pub proof fn lemma_contains_append(a: Seq<Seq<u8>>, b: Seq<Seq<u8>>, x: Seq<u8>)
    ensures
        seq_contains_bytes(a + b, x) == (seq_contains_bytes(a, x) || seq_contains_bytes(b, x)),
{
    if seq_contains_bytes(a + b, x) {
        let t = choose|t: int| 0 <= t < (a + b).len() && (a + b)[t] == x;
        if t < a.len() {
            assert(a[t] == x);
        } else {
            assert(b[t - a.len()] == x);
        }
    }
    if seq_contains_bytes(a, x) {
        let t = choose|t: int| 0 <= t < a.len() && a[t] == x;
        assert((a + b)[t] == x);
    }
    if seq_contains_bytes(b, x) {
        let t = choose|t: int| 0 <= t < b.len() && b[t] == x;
        assert((a + b)[a.len() + t] == x);
    }
}

/// Linear search of a byte string in a list of byte strings.
pub fn contains_bytes(hay: &Vec<Vec<u8>>, needle: &[u8]) -> (r: bool)
    ensures
        r == seq_contains_bytes(hay@.map_values(|v: Vec<u8>| v@), needle@),
{
    let ghost hs = hay@.map_values(|v: Vec<u8>| v@);
    let mut i: usize = 0;
    while i < hay.len()
        invariant
            i <= hay.len(),
            hs == hay@.map_values(|v: Vec<u8>| v@),
            forall|j: int| 0 <= j < i ==> hs[j] != needle@,
        decreases hay.len() - i,
    {
        if bytes_eq(hay[i].as_slice(), needle) {
            assert(hs[i as int] == needle@);
            return true;
        }
        i += 1;
    }
    false
}

} // verus!
