//! The codec of strings: the UTF-8 bytes of the text, written as a vector of
//! bytes is.
use crate::codec::{Binary, RoundTrip};
use crate::endian::le_value;
use crate::sequence::{lemma_decode_n_bytes, lemma_encode_all_bytes, model_all};
use vstd::prelude::*;
use vstd::utf8::{
    decode_utf8, decode_utf8_encode_utf8, encode_utf8, encode_utf8_decode_utf8,
    encode_utf8_valid_utf8, valid_utf8,
};

verus! {

/// `String::from_utf8` of the standard library: the text that the bytes
/// spell in UTF-8, and nothing where they are no valid UTF-8.
#[verifier::external_body]
fn string_from_utf8(bytes: Vec<u8>) -> (r: Option<String>)
    ensures
        r is Some <==> valid_utf8(bytes@),
        r matches Some(s) ==> s@ == decode_utf8(bytes@),
{
    String::from_utf8(bytes).ok()
}

/// The bytes of a vector of bytes are their own models.
pub proof fn lemma_model_all_bytes(s: Seq<u8>)
    ensures
        model_all::<u8>(s) == s,
{
    assert(model_all::<u8>(s) =~= s);
}

/// What the front of `bs` holds as a vector of bytes: a count in eight
/// bytes and then as many bytes as it says, if they are there.
pub proof fn lemma_decode_byte_vec(bs: Seq<u8>)
    ensures
        Vec::<u8>::decode(bs) == if bs.len() >= 8 && le_value(bs.take(8)) <= bs.len() - 8 {
            Some(
                (
                    bs.skip(8).take(le_value(bs.take(8)) as int),
                    8 + le_value(bs.take(8)) as int,
                ),
            )
        } else {
            None
        },
{
    if bs.len() >= 8 {
        lemma_decode_n_bytes(bs.skip(8), le_value(bs.take(8)));
    }
}

impl Binary for String {
    type Model = Seq<char>;

    open spec fn model(&self) -> Seq<char> {
        self@
    }

    /// The number of bytes has to fit the eight bytes that are written for it.
    open spec fn valid(m: Seq<char>) -> bool {
        encode_utf8(m).len() <= u64::MAX
    }

    open spec fn same(a: Seq<char>, b: Seq<char>) -> bool {
        a == b
    }

    /// The number of UTF-8 bytes in eight bytes, then those bytes.
    open spec fn encode(m: Seq<char>) -> Seq<u8> {
        Vec::<u8>::encode(encode_utf8(m))
    }

    /// A vector of bytes that is no valid UTF-8 is rejected.
    open spec fn decode(bs: Seq<u8>) -> Option<(Seq<char>, int)> {
        match Vec::<u8>::decode(bs) {
            Some((bytes, used)) => if valid_utf8(bytes) {
                Some((decode_utf8(bytes), used))
            } else {
                None
            },
            None => None,
        }
    }

    open spec fn min_width() -> nat {
        8
    }

    proof fn lemma_decode_bounds(bs: Seq<u8>) {
        assert(Self::min_width() == 8);
        Vec::<u8>::lemma_decode_bounds(bs);
        if let Some((bytes, used)) = Vec::<u8>::decode(bs) {
            if valid_utf8(bytes) {
                decode_utf8_encode_utf8(bytes);
            }
        }
    }

    proof fn lemma_decode_prefix(bs: Seq<u8>, other: Seq<u8>) {
        Vec::<u8>::lemma_decode_prefix(bs, other);
    }

    fn parse(bs: &[u8]) -> (r: Option<(Self, &[u8])>) {
        proof {
            Self::lemma_decode_bounds(bs@);
        }
        match <Vec<u8> as Binary>::parse(bs) {
            Some((ss, rest)) => {
                proof {
                    let bytes = Vec::<u8>::decode(bs@).unwrap().0;
                    lemma_model_all_bytes(ss@);
                    assert(ss@ =~= bytes);
                }
                match string_from_utf8(ss) {
                    Some(s) => Some((s, rest)),
                    None => None,
                }
            },
            None => None,
        }
    }

    fn unparse(&self, bs: &mut Vec<u8>) {
        let bytes: &[u8] = self.as_str().as_bytes();
        let n: u64 = bytes.len() as u64;
        n.unparse(bs);
        bs.extend_from_slice(bytes);
        proof {
            lemma_encode_all_bytes(bytes@);
            assert(bs@ =~= old(bs)@ + Self::encode(self.model()));
        }
    }
}

impl RoundTrip for String {
    proof fn lemma_round_trip(m: Seq<char>, rest: Seq<u8>) {
        Vec::<u8>::lemma_round_trip(encode_utf8(m), rest);
        encode_utf8_valid_utf8(m);
        encode_utf8_decode_utf8(m);
    }
}

} // verus!
