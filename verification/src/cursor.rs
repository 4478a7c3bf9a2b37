//! Taking a fixed number of bytes off the front of an input, and appending
//! a fixed number of bytes to an output.
use vstd::prelude::*;

verus! {

/// The conversion of a slice to a reference to an array, `TryFrom<&[u8]>` for
/// `&[u8; N]` of the standard library: it succeeds exactly when the slice is
/// `N` bytes long, and the array then holds the bytes of the slice.
#[verifier::external_body]
fn as_array<const N: usize>(bs: &[u8]) -> (r: Option<&[u8; N]>)
    ensures
        r is Some <==> bs@.len() == N,
        r matches Some(a) ==> a@ == bs@,
{
    <&[u8; N]>::try_from(bs).ok()
}

/// Parse the given number of bytes into a fixed length array. This can be helpful for writing
/// implementations of Binary.
pub fn parse_bytes<const N: usize>(bs: &[u8]) -> (r: Option<(&[u8; N], &[u8])>)
    ensures
        r is Some <==> bs@.len() >= N,
        r matches Some((head, rest)) ==> head@ == bs@.take(N as int) && rest@ == bs@.skip(N as int),
{
    if bs.len() >= N {
        let (head, rest) = bs.split_at(N);
        match as_array::<N>(head) {
            Some(a) => Some((a, rest)),
            None => None,
        }
    } else {
        None
    }
}

/// Appends an array of bytes as it is.
pub(crate) fn put<const N: usize>(bytes: &[u8; N], bs: &mut Vec<u8>)
    ensures
        final(bs)@ == old(bs)@ + bytes@,
{
    bs.extend_from_slice(bytes.as_slice());
    proof {
        assert(bs@ =~= old(bs)@ + bytes@);
    }
}

} // verus!
