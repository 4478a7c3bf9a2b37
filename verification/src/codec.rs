//! The contract that every codec meets.
use vstd::prelude::*;

verus! {

/// Types which can be written to and read back from a binary format.
///
/// A codec is described by four specification functions over a mathematical
/// `Model` of the type: which models are `valid`, what bytes `encode` gives
/// for one, what `decode` reads from the front of an input, and when two
/// models are the `same` value. The executable functions are tied to these.
pub trait Binary: Sized {
    /// The mathematical value that a `Self` stands for on the wire.
    type Model;

    /// The model of a value.
    spec fn model(&self) -> Self::Model;

    /// The models that can be encoded.
    spec fn valid(m: Self::Model) -> bool;

    /// Whether two models stand for equal values. For every codec whose
    /// values keep the order of their parts this is equality.
    spec fn same(a: Self::Model, b: Self::Model) -> bool;

    /// The canonical encoding of a model.
    spec fn encode(m: Self::Model) -> Seq<u8>;

    /// The model that the front of `bs` holds, together with the number of
    /// bytes it occupies; `None` where the input is truncated or malformed.
    spec fn decode(bs: Seq<u8>) -> Option<(Self::Model, int)>;

    /// A lower bound on the width of every encoding.
    spec fn min_width() -> nat;

    /// A successful decode yields a valid model and consumes a prefix of the
    /// input that is at least `min_width` bytes long.
    proof fn lemma_decode_bounds(bs: Seq<u8>)
        ensures
            Self::decode(bs) matches Some((m, n)) ==> {
                &&& Self::valid(m)
                &&& Self::min_width() <= n
                &&& n <= bs.len()
            },
    ;

    /// Decoding reads no byte beyond those it consumes: an input that begins
    /// with the same bytes holds the same model in as many bytes.
    proof fn lemma_decode_prefix(bs: Seq<u8>, other: Seq<u8>)
        requires
            Self::decode(bs) matches Some((_, n)) && n <= other.len() && other.take(n) == bs.take(
                n,
            ),
        ensures
            Self::decode(other) == Self::decode(bs),
    ;

    /// Deserialize self from bytes, potentially leaving more input.
    fn parse(bs: &[u8]) -> (r: Option<(Self, &[u8])>)
        ensures
            r is Some <==> Self::decode(bs@) is Some,
            r matches Some((v, rest)) ==> (Self::decode(bs@) matches Some((m, n)) && Self::same(
                v.model(),
                m,
            ) && 0 <= n <= bs@.len() && rest@ == bs@.skip(n)),
    ;

    /// Serialize self to the vector.
    fn unparse(&self, bs: &mut Vec<u8>)
        ensures
            Self::valid(self.model()),
            final(bs)@ == old(bs)@ + Self::encode(self.model()),
    ;

    /// Encodes the given object.
    fn to_bytes(&self) -> (r: Vec<u8>)
        ensures
            Self::valid(self.model()),
            r@ == Self::encode(self.model()),
    {
        let mut bs = Vec::new();
        self.unparse(&mut bs);
        bs
    }

    /// Parses from bytes, only returning Some when the input is exactly the right length.
    fn from_bytes(bs: &[u8]) -> (r: Option<Self>)
        ensures
            r is Some <==> (Self::decode(bs@) matches Some((_, n)) && n == bs@.len()),
            r matches Some(v) ==> (Self::decode(bs@) matches Some((m, _)) && Self::same(
                v.model(),
                m,
            )),
    {
        match Self::parse(bs) {
            Some((x, rest)) => {
                if rest.len() == 0 {
                    Some(x)
                } else {
                    None
                }
            },
            None => None,
        }
    }
}

/// Codecs whose round trip is proved: decoding an encoding gives the model
/// back and leaves what followed it.
///
/// Every codec that is built from the library's own rules is one. A codec
/// that hands its bytes to a function from elsewhere is one only where what
/// that function computes is known.
pub trait RoundTrip: Binary {
    /// Decoding an encoding gives the model back and leaves what followed it.
    proof fn lemma_round_trip(m: Self::Model, rest: Seq<u8>)
        requires
            Self::valid(m),
        ensures
            Self::decode(Self::encode(m) + rest) == Some((m, Self::encode(m).len() as int)),
    ;
}

} // verus!
