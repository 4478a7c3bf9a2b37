//! The codec of the hashes of the crate `blake3`: the 32 bytes of the hash.
use crate::codec::{Binary, RoundTrip};
use crate::cursor::{parse_bytes, put};
use vstd::prelude::*;

verus! {

/// The hashes of `blake3`: nothing of what one holds is seen here.
#[verifier::external_type_specification]
#[verifier::external_body]
pub struct ExHash(blake3::Hash);

/// The 32 raw bytes of a hash.
pub uninterp spec fn hash_bytes(h: blake3::Hash) -> Seq<u8>;

/// `Hash::as_bytes` of `blake3`: the raw bytes of the hash.
#[verifier::external_body]
fn hash_as_bytes(h: &blake3::Hash) -> (r: &[u8; 32])
    ensures
        r@ == hash_bytes(*h),
{
    h.as_bytes()
}

/// `Hash::from_bytes` of `blake3`: the hash whose raw bytes are the given
/// ones.
#[verifier::external_body]
fn hash_from_bytes(bytes: [u8; 32]) -> (r: blake3::Hash)
    ensures
        hash_bytes(r) == bytes@,
{
    blake3::Hash::from_bytes(bytes)
}

impl Binary for blake3::Hash {
    type Model = Seq<u8>;

    /// The raw bytes of the hash.
    open spec fn model(&self) -> Seq<u8> {
        hash_bytes(*self)
    }

    open spec fn valid(m: Seq<u8>) -> bool {
        m.len() == 32
    }

    open spec fn same(a: Seq<u8>, b: Seq<u8>) -> bool {
        a == b
    }

    /// The 32 bytes as they are.
    open spec fn encode(m: Seq<u8>) -> Seq<u8> {
        m
    }

    open spec fn decode(bs: Seq<u8>) -> Option<(Seq<u8>, int)> {
        if bs.len() >= 32 {
            Some((bs.take(32), 32))
        } else {
            None
        }
    }

    open spec fn min_width() -> nat {
        32
    }

    proof fn lemma_decode_bounds(bs: Seq<u8>) {
        assert(Self::min_width() == 32);
    }

    proof fn lemma_decode_prefix(bs: Seq<u8>, other: Seq<u8>) {
        assert(Self::decode(bs) is Some ==> bs.len() >= 32);
    }

    fn parse(bs: &[u8]) -> (r: Option<(Self, &[u8])>) {
        proof {
            Self::lemma_decode_bounds(bs@);
        }
        match parse_bytes::<32>(bs) {
            Some((head, rest)) => Some((hash_from_bytes(*head), rest)),
            None => None,
        }
    }

    fn unparse(&self, bs: &mut Vec<u8>) {
        put(hash_as_bytes(self), bs);
    }
}

impl RoundTrip for blake3::Hash {
    proof fn lemma_round_trip(m: Seq<u8>, rest: Seq<u8>) {
        assert((m + rest).take(32) =~= m);
    }
}

} // verus!
