//! The hash commitment: SHA-256 over the 16-byte wire form of a field
//! element, compared bytewise.
use vstd::prelude::*;

verus! {

/// The SHA-256 digest of a byte string. The function is fixed by the input
/// alone; its value is not spelled out here.
pub uninterp spec fn sha256_of(bytes: Seq<u8>) -> Seq<u8>;

/// Relies on sha2's `Sha256::digest`: a 32-byte digest computed from the
/// input bytes alone.
#[verifier::external_body]
pub fn sha256(bytes: &Vec<u8>) -> (r: Vec<u8>)
    ensures
        r@ == sha256_of(bytes@),
        r@.len() == 32,
{
    let digest = <sha2::Sha256 as sha2::Digest>::digest(bytes.as_slice());
    digest.to_vec()
}

/// Bytewise equality of two byte strings.
pub fn bytes_eq(a: &Vec<u8>, b: &Vec<u8>) -> (r: bool)
    ensures
        r <==> a@ =~= b@,
{
    if a.len() != b.len() {
        return false;
    }
    let mut i: usize = 0;
    while i < a.len()
        invariant
            a@.len() == b@.len(),
            i <= a@.len(),
            forall|j: int| 0 <= j < i ==> a@[j] == b@[j],
        decreases a@.len() - i,
    {
        if a[i] != b[i] {
            return false;
        }
        i = i + 1;
    }
    proof {
        assert(a@ =~= b@);
    }
    true
}

} // verus!
