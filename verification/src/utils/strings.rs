//! String equality over raw bytes.

use vstd::prelude::*;
use vstd::string::StringSliceAdditionalSpecFns;

verus! {

/// Whether two string slices hold the same characters, decided byte by
/// byte: two strings are equal exactly when their UTF-8 bytes are.
pub fn str_eq(a: &str, b: &str) -> (r: bool)
    ensures
        r == (a@ == b@),
{
    broadcast use vstd::utf8::encode_utf8_decode_utf8;

    let ab = a.as_bytes();
    let bb = b.as_bytes();
    if ab.len() != bb.len() {
        assert(a@ != b@);
        return false;
    }
    let n = ab.len();
    let mut i: usize = 0;
    while i < n
        invariant
            i <= n,
            ab@ == a.spec_bytes(),
            bb@ == b.spec_bytes(),
            n == ab@.len() == bb@.len(),
            forall|j: int| 0 <= j < i ==> ab@[j] == bb@[j],
        decreases n - i,
    {
        if ab[i] != bb[i] {
            assert(a.spec_bytes() != b.spec_bytes());
            assert(a@ != b@);
            return false;
        }
        i += 1;
    }
    assert(a.spec_bytes() =~= b.spec_bytes());
    assert(vstd::utf8::decode_utf8(a.spec_bytes()) == vstd::utf8::decode_utf8(b.spec_bytes()));
    assert(a@ == b@);
    true
}

} // verus!
