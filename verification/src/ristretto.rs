//! Codecs of the Ristretto group and of its scalars, in the serialization of
//! the crate `curve25519-dalek`.
//!
//! A compressed point is the 32 bytes it holds, and its round trip is proved.
//! Which bytes stand for a point or for a scalar is decided in that crate
//! and only named here.
use crate::codec::{Binary, RoundTrip};
use crate::cursor::{parse_bytes, put};
use vstd::prelude::*;

verus! {

/// The compressed points of `curve25519-dalek`: nothing of what one holds is seen here.
#[verifier::external_type_specification]
#[verifier::external_body]
pub struct ExCompressedRistretto(curve25519_dalek::ristretto::CompressedRistretto);

/// The points of the Ristretto group of `curve25519-dalek`, unseen as well.
#[verifier::external_type_specification]
#[verifier::external_body]
pub struct ExRistrettoPoint(curve25519_dalek::ristretto::RistrettoPoint);

/// The scalars of `curve25519-dalek`, unseen as well.
#[verifier::external_type_specification]
#[verifier::external_body]
pub struct ExScalar(curve25519_dalek::scalar::Scalar);

/// The 32 bytes that a compressed point holds.
pub uninterp spec fn compressed_bytes(c: curve25519_dalek::ristretto::CompressedRistretto) -> Seq<
    u8,
>;

/// The 32 bytes that `RistrettoPoint::compress` gives for a point.
pub uninterp spec fn point_compressed(p: curve25519_dalek::ristretto::RistrettoPoint) -> Seq<u8>;

/// The point that `CompressedRistretto::decompress` reads from 32 bytes, if
/// any.
pub uninterp spec fn point_of_compressed(bytes: Seq<u8>) -> Option<
    curve25519_dalek::ristretto::RistrettoPoint,
>;

/// The 32 bytes that a scalar holds.
pub uninterp spec fn scalar_bytes(s: curve25519_dalek::scalar::Scalar) -> Seq<u8>;

/// Whether `Scalar::from_canonical_bytes` accepts the 32 bytes.
pub uninterp spec fn scalar_is_canonical(bytes: Seq<u8>) -> bool;

/// `CompressedRistretto::as_bytes` of `curve25519-dalek`: the 32 bytes that
/// the compressed point holds.
#[verifier::external_body]
fn compressed_as_bytes(c: &curve25519_dalek::ristretto::CompressedRistretto) -> (r: &[u8; 32])
    ensures
        r@ == compressed_bytes(*c),
{
    c.as_bytes()
}

/// `CompressedRistretto::from_slice` of `curve25519-dalek`: the compressed
/// point that holds the bytes of the slice, and nothing where the slice is
/// not 32 bytes long.
#[verifier::external_body]
fn compressed_from_slice(bytes: &[u8]) -> (r: Option<
    curve25519_dalek::ristretto::CompressedRistretto,
>)
    ensures
        r is Some <==> bytes@.len() == 32,
        r matches Some(c) ==> compressed_bytes(c) == bytes@,
{
    curve25519_dalek::ristretto::CompressedRistretto::from_slice(bytes).ok()
}

/// `RistrettoPoint::compress` of `curve25519-dalek`. Nothing is claimed of
/// the bytes of the outcome but that they depend on the point alone.
#[verifier::external_body]
fn point_compress(p: &curve25519_dalek::ristretto::RistrettoPoint) -> (r:
    curve25519_dalek::ristretto::CompressedRistretto)
    ensures
        compressed_bytes(r) == point_compressed(*p),
{
    p.compress()
}

/// `CompressedRistretto::decompress` of `curve25519-dalek`: the point of
/// which the bytes are the canonical encoding, if they are one. Nothing is
/// claimed of the outcome but that it depends on the bytes alone.
#[verifier::external_body]
fn point_decompress(c: &curve25519_dalek::ristretto::CompressedRistretto) -> (r: Option<
    curve25519_dalek::ristretto::RistrettoPoint,
>)
    ensures
        r == point_of_compressed(compressed_bytes(*c)),
{
    c.decompress()
}

/// `Scalar::as_bytes` of `curve25519-dalek`: the 32 bytes that the scalar
/// holds.
#[verifier::external_body]
fn scalar_as_bytes(s: &curve25519_dalek::scalar::Scalar) -> (r: &[u8; 32])
    ensures
        r@ == scalar_bytes(*s),
{
    s.as_bytes()
}

/// `Scalar::from_canonical_bytes` of `curve25519-dalek`: the scalar that
/// holds the given bytes, and nothing where they are no canonical
/// representation. Which bytes are canonical is not stated here.
#[verifier::external_body]
fn scalar_from_canonical_bytes(bytes: [u8; 32]) -> (r: Option<curve25519_dalek::scalar::Scalar>)
    ensures
        r is Some <==> scalar_is_canonical(bytes@),
        r matches Some(s) ==> scalar_bytes(s) == bytes@,
{
    curve25519_dalek::scalar::Scalar::from_canonical_bytes(bytes).into()
}

impl Binary for curve25519_dalek::ristretto::CompressedRistretto {
    type Model = Seq<u8>;

    /// The bytes that the compressed point holds.
    open spec fn model(&self) -> Seq<u8> {
        compressed_bytes(*self)
    }

    open spec fn valid(m: Seq<u8>) -> bool {
        m.len() == 32
    }

    open spec fn same(a: Seq<u8>, b: Seq<u8>) -> bool {
        a == b
    }

    /// The 32 bytes as they are.
    open spec fn encode(m: Seq<u8>) -> Seq<u8> {
        m
    }

    open spec fn decode(bs: Seq<u8>) -> Option<(Seq<u8>, int)> {
        if bs.len() >= 32 {
            Some((bs.take(32), 32))
        } else {
            None
        }
    }

    open spec fn min_width() -> nat {
        32
    }

    proof fn lemma_decode_bounds(bs: Seq<u8>) {
        assert(Self::min_width() == 32);
    }

    proof fn lemma_decode_prefix(bs: Seq<u8>, other: Seq<u8>) {
        assert(Self::decode(bs) is Some ==> bs.len() >= 32);
    }

    fn parse(bs: &[u8]) -> (r: Option<(Self, &[u8])>) {
        proof {
            Self::lemma_decode_bounds(bs@);
        }
        match parse_bytes::<32>(bs) {
            Some((head, rest)) => match compressed_from_slice(head.as_slice()) {
                Some(c) => Some((c, rest)),
                None => None,
            },
            None => None,
        }
    }

    fn unparse(&self, bs: &mut Vec<u8>) {
        put(compressed_as_bytes(self), bs);
    }
}

impl RoundTrip for curve25519_dalek::ristretto::CompressedRistretto {
    proof fn lemma_round_trip(m: Seq<u8>, rest: Seq<u8>) {
        assert((m + rest).take(32) =~= m);
    }
}

impl Binary for curve25519_dalek::ristretto::RistrettoPoint {
    type Model = curve25519_dalek::ristretto::RistrettoPoint;

    open spec fn model(&self) -> curve25519_dalek::ristretto::RistrettoPoint {
        *self
    }

    open spec fn valid(m: curve25519_dalek::ristretto::RistrettoPoint) -> bool {
        true
    }

    open spec fn same(
        a: curve25519_dalek::ristretto::RistrettoPoint,
        b: curve25519_dalek::ristretto::RistrettoPoint,
    ) -> bool {
        a == b
    }

    /// What `RistrettoPoint::compress` gives.
    open spec fn encode(m: curve25519_dalek::ristretto::RistrettoPoint) -> Seq<u8> {
        point_compressed(m)
    }

    /// What `CompressedRistretto::decompress` reads from the first 32 bytes.
    open spec fn decode(bs: Seq<u8>) -> Option<
        (curve25519_dalek::ristretto::RistrettoPoint, int),
    > {
        if bs.len() >= 32 {
            match point_of_compressed(bs.take(32)) {
                Some(p) => Some((p, 32)),
                None => None,
            }
        } else {
            None
        }
    }

    open spec fn min_width() -> nat {
        32
    }

    proof fn lemma_decode_bounds(bs: Seq<u8>) {
        assert(Self::min_width() == 32);
    }

    proof fn lemma_decode_prefix(bs: Seq<u8>, other: Seq<u8>) {
        assert(Self::decode(bs) is Some ==> bs.len() >= 32);
    }

    fn parse(bs: &[u8]) -> (r: Option<(Self, &[u8])>) {
        proof {
            Self::lemma_decode_bounds(bs@);
        }
        match curve25519_dalek::ristretto::CompressedRistretto::parse(bs) {
            Some((cr, rest)) => match point_decompress(&cr) {
                Some(p) => Some((p, rest)),
                None => None,
            },
            None => None,
        }
    }

    fn unparse(&self, bs: &mut Vec<u8>) {
        point_compress(self).unparse(bs);
    }
}

impl Binary for curve25519_dalek::scalar::Scalar {
    type Model = Seq<u8>;

    /// The bytes that the scalar holds.
    open spec fn model(&self) -> Seq<u8> {
        scalar_bytes(*self)
    }

    open spec fn valid(m: Seq<u8>) -> bool {
        m.len() == 32
    }

    open spec fn same(a: Seq<u8>, b: Seq<u8>) -> bool {
        a == b
    }

    /// The 32 bytes as they are.
    open spec fn encode(m: Seq<u8>) -> Seq<u8> {
        m
    }

    /// The first 32 bytes, where `Scalar::from_canonical_bytes` accepts them.
    open spec fn decode(bs: Seq<u8>) -> Option<(Seq<u8>, int)> {
        if bs.len() >= 32 && scalar_is_canonical(bs.take(32)) {
            Some((bs.take(32), 32))
        } else {
            None
        }
    }

    open spec fn min_width() -> nat {
        32
    }

    proof fn lemma_decode_bounds(bs: Seq<u8>) {
        assert(Self::min_width() == 32);
    }

    proof fn lemma_decode_prefix(bs: Seq<u8>, other: Seq<u8>) {
        assert(Self::decode(bs) is Some ==> bs.len() >= 32);
    }

    fn parse(bs: &[u8]) -> (r: Option<(Self, &[u8])>) {
        proof {
            Self::lemma_decode_bounds(bs@);
        }
        match parse_bytes::<32>(bs) {
            Some((head, rest)) => match scalar_from_canonical_bytes(*head) {
                Some(s) => Some((s, rest)),
                None => None,
            },
            None => None,
        }
    }

    fn unparse(&self, bs: &mut Vec<u8>) {
        put(scalar_as_bytes(self), bs);
    }
}

/// Round trip of canonical scalars: 32 bytes that `Scalar::from_canonical_bytes`
/// accepts are read back as they are written, whatever follows them.
pub proof fn lemma_canonical_scalar_round_trip(m: Seq<u8>, rest: Seq<u8>)
    requires
        m.len() == 32,
        scalar_is_canonical(m),
    ensures
        curve25519_dalek::scalar::Scalar::decode(
            curve25519_dalek::scalar::Scalar::encode(m) + rest,
        ) == Some((m, 32int)),
{
    assert((m + rest).take(32) =~= m);
}

} // verus!
