//! Codecs of the scalars and group elements of the curve BLS12-381, in the
//! serialization of the crate `bls12_381`.
//!
//! What that crate writes for a value, and what it accepts, is computed
//! there and only named here. So these codecs meet the contract of `Binary`,
//! and their round trip is that of the crate itself.
use crate::codec::Binary;
use crate::cursor::{parse_bytes, put};
use vstd::prelude::*;

verus! {

/// The scalars of `bls12_381`: nothing of what one holds is seen here.
#[verifier::external_type_specification]
#[verifier::external_body]
pub struct ExScalar(bls12_381::Scalar);

/// The affine points of the first group of `bls12_381`, unseen as well.
#[verifier::external_type_specification]
#[verifier::external_body]
pub struct ExG1Affine(bls12_381::G1Affine);

/// The projective points of the first group of `bls12_381`, unseen as well.
#[verifier::external_type_specification]
#[verifier::external_body]
pub struct ExG1Projective(bls12_381::G1Projective);

/// The affine points of the second group of `bls12_381`, unseen as well.
#[verifier::external_type_specification]
#[verifier::external_body]
pub struct ExG2Affine(bls12_381::G2Affine);

/// The projective points of the second group of `bls12_381`, unseen as well.
#[verifier::external_type_specification]
#[verifier::external_body]
pub struct ExG2Projective(bls12_381::G2Projective);

/// The 32 bytes that `Scalar::to_bytes` gives for a scalar.
pub uninterp spec fn scalar_bytes(s: bls12_381::Scalar) -> Seq<u8>;

/// The scalar that `Scalar::from_bytes` reads from 32 bytes, if any.
pub uninterp spec fn scalar_of_bytes(bytes: Seq<u8>) -> Option<bls12_381::Scalar>;

/// The 48 bytes that `G1Affine::to_compressed` gives for a point.
pub uninterp spec fn g1_compressed(p: bls12_381::G1Affine) -> Seq<u8>;

/// The point that `G1Affine::from_compressed` reads from 48 bytes, if any.
pub uninterp spec fn g1_of_compressed(bytes: Seq<u8>) -> Option<bls12_381::G1Affine>;

/// The affine form that `G1Affine::from` gives for a point.
pub uninterp spec fn g1_affine(p: bls12_381::G1Projective) -> bls12_381::G1Affine;

/// The projective form that `G1Projective::from` gives for a point.
pub uninterp spec fn g1_projective(p: bls12_381::G1Affine) -> bls12_381::G1Projective;

/// The 96 bytes that `G2Affine::to_compressed` gives for a point.
pub uninterp spec fn g2_compressed(p: bls12_381::G2Affine) -> Seq<u8>;

/// The point that `G2Affine::from_compressed` reads from 96 bytes, if any.
pub uninterp spec fn g2_of_compressed(bytes: Seq<u8>) -> Option<bls12_381::G2Affine>;

/// The affine form that `G2Affine::from` gives for a point.
pub uninterp spec fn g2_affine(p: bls12_381::G2Projective) -> bls12_381::G2Affine;

/// The projective form that `G2Projective::from` gives for a point.
pub uninterp spec fn g2_projective(p: bls12_381::G2Affine) -> bls12_381::G2Projective;

/// `Scalar::to_bytes` of `bls12_381`: the little-endian bytes of the scalar.
/// Nothing is claimed of them but that they depend on the scalar alone.
#[verifier::external_body]
fn scalar_to_bytes(s: &bls12_381::Scalar) -> (r: [u8; 32])
    ensures
        r@ == scalar_bytes(*s),
{
    s.to_bytes()
}

/// `Scalar::from_bytes` of `bls12_381`: the scalar that 32 bytes spell, and
/// nothing where they are not canonical. Nothing is claimed of the outcome
/// but that it depends on the bytes alone.
#[verifier::external_body]
fn scalar_from_bytes(bytes: &[u8; 32]) -> (r: Option<bls12_381::Scalar>)
    ensures
        r == scalar_of_bytes(bytes@),
{
    bls12_381::Scalar::from_bytes(bytes).into()
}

/// `G1Affine::to_compressed` of `bls12_381`. Nothing is claimed of the bytes
/// but that they depend on the point alone.
#[verifier::external_body]
fn g1_to_compressed(p: &bls12_381::G1Affine) -> (r: [u8; 48])
    ensures
        r@ == g1_compressed(*p),
{
    p.to_compressed()
}

/// `G1Affine::from_compressed` of `bls12_381`. Nothing is claimed of the
/// outcome but that it depends on the bytes alone.
#[verifier::external_body]
fn g1_from_compressed(bytes: &[u8; 48]) -> (r: Option<bls12_381::G1Affine>)
    ensures
        r == g1_of_compressed(bytes@),
{
    bls12_381::G1Affine::from_compressed(bytes).into()
}

/// `G1Affine::from` of `bls12_381`, for a reference to a projective point.
#[verifier::external_body]
fn g1_to_affine(p: &bls12_381::G1Projective) -> (r: bls12_381::G1Affine)
    ensures
        r == g1_affine(*p),
{
    bls12_381::G1Affine::from(p)
}

/// `G1Projective::from` of `bls12_381`, for an affine point.
#[verifier::external_body]
fn g1_to_projective(p: bls12_381::G1Affine) -> (r: bls12_381::G1Projective)
    ensures
        r == g1_projective(p),
{
    bls12_381::G1Projective::from(p)
}

/// `G2Affine::to_compressed` of `bls12_381`. Nothing is claimed of the bytes
/// but that they depend on the point alone.
#[verifier::external_body]
fn g2_to_compressed(p: &bls12_381::G2Affine) -> (r: [u8; 96])
    ensures
        r@ == g2_compressed(*p),
{
    p.to_compressed()
}

/// `G2Affine::from_compressed` of `bls12_381`. Nothing is claimed of the
/// outcome but that it depends on the bytes alone.
#[verifier::external_body]
fn g2_from_compressed(bytes: &[u8; 96]) -> (r: Option<bls12_381::G2Affine>)
    ensures
        r == g2_of_compressed(bytes@),
{
    bls12_381::G2Affine::from_compressed(bytes).into()
}

/// `G2Affine::from` of `bls12_381`, for a reference to a projective point.
#[verifier::external_body]
fn g2_to_affine(p: &bls12_381::G2Projective) -> (r: bls12_381::G2Affine)
    ensures
        r == g2_affine(*p),
{
    bls12_381::G2Affine::from(p)
}

/// `G2Projective::from` of `bls12_381`, for an affine point.
#[verifier::external_body]
fn g2_to_projective(p: bls12_381::G2Affine) -> (r: bls12_381::G2Projective)
    ensures
        r == g2_projective(p),
{
    bls12_381::G2Projective::from(p)
}

impl Binary for bls12_381::Scalar {
    type Model = bls12_381::Scalar;

    open spec fn model(&self) -> bls12_381::Scalar {
        *self
    }

    open spec fn valid(m: bls12_381::Scalar) -> bool {
        true
    }

    open spec fn same(a: bls12_381::Scalar, b: bls12_381::Scalar) -> bool {
        a == b
    }

    /// What `Scalar::to_bytes` gives.
    open spec fn encode(m: bls12_381::Scalar) -> Seq<u8> {
        scalar_bytes(m)
    }

    /// What `Scalar::from_bytes` reads from the first 32 bytes.
    open spec fn decode(bs: Seq<u8>) -> Option<(bls12_381::Scalar, int)> {
        if bs.len() >= 32 {
            match scalar_of_bytes(bs.take(32)) {
                Some(s) => Some((s, 32)),
                None => None,
            }
        } else {
            None
        }
    }

    open spec fn min_width() -> nat {
        32
    }

    proof fn lemma_decode_bounds(bs: Seq<u8>) {
        assert(Self::min_width() == 32);
    }

    proof fn lemma_decode_prefix(bs: Seq<u8>, other: Seq<u8>) {
        assert(Self::decode(bs) is Some ==> bs.len() >= 32);
    }

    fn unparse(&self, bs: &mut Vec<u8>) {
        put(&scalar_to_bytes(self), bs);
    }

    fn parse(bs: &[u8]) -> (r: Option<(Self, &[u8])>) {
        proof {
            Self::lemma_decode_bounds(bs@);
        }
        match parse_bytes::<32>(bs) {
            Some((head, rest)) => match scalar_from_bytes(head) {
                Some(scalar) => Some((scalar, rest)),
                None => None,
            },
            None => None,
        }
    }
}

impl Binary for bls12_381::G1Affine {
    type Model = bls12_381::G1Affine;

    open spec fn model(&self) -> bls12_381::G1Affine {
        *self
    }

    open spec fn valid(m: bls12_381::G1Affine) -> bool {
        true
    }

    open spec fn same(a: bls12_381::G1Affine, b: bls12_381::G1Affine) -> bool {
        a == b
    }

    /// What `G1Affine::to_compressed` gives.
    open spec fn encode(m: bls12_381::G1Affine) -> Seq<u8> {
        g1_compressed(m)
    }

    /// What `G1Affine::from_compressed` reads from the first 48 bytes.
    open spec fn decode(bs: Seq<u8>) -> Option<(bls12_381::G1Affine, int)> {
        if bs.len() >= 48 {
            match g1_of_compressed(bs.take(48)) {
                Some(p) => Some((p, 48)),
                None => None,
            }
        } else {
            None
        }
    }

    open spec fn min_width() -> nat {
        48
    }

    proof fn lemma_decode_bounds(bs: Seq<u8>) {
        assert(Self::min_width() == 48);
    }

    proof fn lemma_decode_prefix(bs: Seq<u8>, other: Seq<u8>) {
        assert(Self::decode(bs) is Some ==> bs.len() >= 48);
    }

    fn unparse(&self, bs: &mut Vec<u8>) {
        put(&g1_to_compressed(self), bs);
    }

    fn parse(bs: &[u8]) -> (r: Option<(Self, &[u8])>) {
        proof {
            Self::lemma_decode_bounds(bs@);
        }
        match parse_bytes::<48>(bs) {
            Some((head, rest)) => match g1_from_compressed(head) {
                Some(g1affine) => Some((g1affine, rest)),
                None => None,
            },
            None => None,
        }
    }
}

impl Binary for bls12_381::G1Projective {
    type Model = bls12_381::G1Projective;

    open spec fn model(&self) -> bls12_381::G1Projective {
        *self
    }

    open spec fn valid(m: bls12_381::G1Projective) -> bool {
        true
    }

    open spec fn same(a: bls12_381::G1Projective, b: bls12_381::G1Projective) -> bool {
        a == b
    }

    /// The compressed bytes of the affine form of the point.
    open spec fn encode(m: bls12_381::G1Projective) -> Seq<u8> {
        g1_compressed(g1_affine(m))
    }

    /// The projective form of the affine point that the first 48 bytes hold.
    open spec fn decode(bs: Seq<u8>) -> Option<(bls12_381::G1Projective, int)> {
        if bs.len() >= 48 {
            match g1_of_compressed(bs.take(48)) {
                Some(p) => Some((g1_projective(p), 48)),
                None => None,
            }
        } else {
            None
        }
    }

    open spec fn min_width() -> nat {
        48
    }

    proof fn lemma_decode_bounds(bs: Seq<u8>) {
        assert(Self::min_width() == 48);
    }

    proof fn lemma_decode_prefix(bs: Seq<u8>, other: Seq<u8>) {
        assert(Self::decode(bs) is Some ==> bs.len() >= 48);
    }

    fn unparse(&self, bs: &mut Vec<u8>) {
        put(&g1_to_compressed(&g1_to_affine(self)), bs);
    }

    fn parse(bs: &[u8]) -> (r: Option<(Self, &[u8])>) {
        proof {
            Self::lemma_decode_bounds(bs@);
        }
        match parse_bytes::<48>(bs) {
            Some((head, rest)) => match g1_from_compressed(head) {
                Some(g1affine) => Some((g1_to_projective(g1affine), rest)),
                None => None,
            },
            None => None,
        }
    }
}

impl Binary for bls12_381::G2Affine {
    type Model = bls12_381::G2Affine;

    open spec fn model(&self) -> bls12_381::G2Affine {
        *self
    }

    open spec fn valid(m: bls12_381::G2Affine) -> bool {
        true
    }

    open spec fn same(a: bls12_381::G2Affine, b: bls12_381::G2Affine) -> bool {
        a == b
    }

    /// What `G2Affine::to_compressed` gives.
    open spec fn encode(m: bls12_381::G2Affine) -> Seq<u8> {
        g2_compressed(m)
    }

    /// What `G2Affine::from_compressed` reads from the first 96 bytes.
    open spec fn decode(bs: Seq<u8>) -> Option<(bls12_381::G2Affine, int)> {
        if bs.len() >= 96 {
            match g2_of_compressed(bs.take(96)) {
                Some(p) => Some((p, 96)),
                None => None,
            }
        } else {
            None
        }
    }

    open spec fn min_width() -> nat {
        96
    }

    proof fn lemma_decode_bounds(bs: Seq<u8>) {
        assert(Self::min_width() == 96);
    }

    proof fn lemma_decode_prefix(bs: Seq<u8>, other: Seq<u8>) {
        assert(Self::decode(bs) is Some ==> bs.len() >= 96);
    }

    fn unparse(&self, bs: &mut Vec<u8>) {
        put(&g2_to_compressed(self), bs);
    }

    fn parse(bs: &[u8]) -> (r: Option<(Self, &[u8])>) {
        proof {
            Self::lemma_decode_bounds(bs@);
        }
        match parse_bytes::<96>(bs) {
            Some((head, rest)) => match g2_from_compressed(head) {
                Some(g2affine) => Some((g2affine, rest)),
                None => None,
            },
            None => None,
        }
    }
}

impl Binary for bls12_381::G2Projective {
    type Model = bls12_381::G2Projective;

    open spec fn model(&self) -> bls12_381::G2Projective {
        *self
    }

    open spec fn valid(m: bls12_381::G2Projective) -> bool {
        true
    }

    open spec fn same(a: bls12_381::G2Projective, b: bls12_381::G2Projective) -> bool {
        a == b
    }

    /// The compressed bytes of the affine form of the point.
    open spec fn encode(m: bls12_381::G2Projective) -> Seq<u8> {
        g2_compressed(g2_affine(m))
    }

    /// The projective form of the affine point that the first 96 bytes hold.
    open spec fn decode(bs: Seq<u8>) -> Option<(bls12_381::G2Projective, int)> {
        if bs.len() >= 96 {
            match g2_of_compressed(bs.take(96)) {
                Some(p) => Some((g2_projective(p), 96)),
                None => None,
            }
        } else {
            None
        }
    }

    open spec fn min_width() -> nat {
        96
    }

    proof fn lemma_decode_bounds(bs: Seq<u8>) {
        assert(Self::min_width() == 96);
    }

    proof fn lemma_decode_prefix(bs: Seq<u8>, other: Seq<u8>) {
        assert(Self::decode(bs) is Some ==> bs.len() >= 96);
    }

    fn unparse(&self, bs: &mut Vec<u8>) {
        put(&g2_to_compressed(&g2_to_affine(self)), bs);
    }

    fn parse(bs: &[u8]) -> (r: Option<(Self, &[u8])>) {
        proof {
            Self::lemma_decode_bounds(bs@);
        }
        match parse_bytes::<96>(bs) {
            Some((head, rest)) => match g2_from_compressed(head) {
                Some(g2affine) => Some((g2_to_projective(g2affine), rest)),
                None => None,
            },
            None => None,
        }
    }
}

} // verus!
