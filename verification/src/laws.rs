//! What holds of every codec, stated once over the trait.
use crate::codec::{Binary, RoundTrip};
use crate::endian::{le_bytes, lemma_le_prefix, lemma_pow256_values};
use crate::text::lemma_decode_byte_vec;
use vstd::prelude::*;
use vstd::utf8::valid_utf8;

verus! {

/// The model that the whole of `bs` holds: what `from_bytes` reads. An input
/// with bytes left over holds none.
pub open spec fn decode_exact<T: Binary>(bs: Seq<u8>) -> Option<T::Model> {
    match T::decode(bs) {
        Some((m, used)) => if used == bs.len() {
            Some(m)
        } else {
            None
        },
        None => None,
    }
}

/// Round trip: decoding the whole encoding of a value gives that value.
pub proof fn lemma_decode_of_encode<T: RoundTrip>(m: T::Model)
    requires
        T::valid(m),
    ensures
        decode_exact::<T>(T::encode(m)) == Some(m),
{
    T::lemma_round_trip(m, Seq::empty());
    assert(T::encode(m) + Seq::<u8>::empty() =~= T::encode(m));
}

/// Truncation: an input shorter than the minimum width of a codec fails to
/// decode, with or without the check for bytes left over.
pub proof fn lemma_truncated_fails<T: Binary>(bs: Seq<u8>)
    requires
        bs.len() < T::min_width(),
    ensures
        T::decode(bs) is None,
        decode_exact::<T>(bs) is None,
{
    T::lemma_decode_bounds(bs);
}

/// Truncation of an encoding: no prefix of an encoding that is shorter than
/// the minimum width of the codec decodes.
pub proof fn lemma_short_prefix_fails<T: RoundTrip>(m: T::Model, len: int)
    requires
        T::valid(m),
        0 <= len < T::min_width(),
    ensures
        len < T::encode(m).len(),
        T::decode(T::encode(m).take(len)) is None,
{
    lemma_decode_of_encode::<T>(m);
    T::lemma_decode_bounds(T::encode(m));
    T::lemma_decode_bounds(T::encode(m).take(len));
}

/// Truncation at any place: no proper prefix of an encoding decodes.
pub proof fn lemma_proper_prefix_fails<T: RoundTrip>(m: T::Model, len: int)
    requires
        T::valid(m),
        0 <= len < T::encode(m).len(),
    ensures
        T::decode(T::encode(m).take(len)) is None,
{
    let whole = T::encode(m);
    let cut = whole.take(len);
    lemma_decode_of_encode::<T>(m);
    if let Some((_, used)) = T::decode(cut) {
        T::lemma_decode_bounds(cut);
        assert(whole.take(used) =~= cut.take(used));
        T::lemma_decode_prefix(cut, whole);
    }
}

/// Truncation of what is read as a whole: no proper prefix of an input
/// that is read as a whole decodes.
pub proof fn lemma_cut_input_fails<T: Binary>(bs: Seq<u8>, len: int)
    requires
        decode_exact::<T>(bs) is Some,
        0 <= len < bs.len(),
    ensures
        T::decode(bs.take(len)) is None,
{
    let cut = bs.take(len);
    if let Some((_, used)) = T::decode(cut) {
        T::lemma_decode_bounds(cut);
        assert(bs.take(used) =~= cut.take(used));
        T::lemma_decode_prefix(cut, bs);
    }
}

/// Trailing bytes after what is read as a whole: an input that is read as a
/// whole is no longer read as a whole once anything follows it, though its
/// front still holds the same model.
pub proof fn lemma_longer_input_rejected<T: Binary>(bs: Seq<u8>, extra: Seq<u8>)
    requires
        decode_exact::<T>(bs) is Some,
        extra.len() > 0,
    ensures
        T::decode(bs + extra) == T::decode(bs),
        decode_exact::<T>(bs + extra) is None,
{
    assert((bs + extra).take(bs.len() as int) =~= bs.take(bs.len() as int));
    T::lemma_decode_prefix(bs, bs + extra);
}

/// Trailing bytes: an encoding that is followed by anything at all is not
/// read as a whole.
pub proof fn lemma_trailing_bytes_rejected<T: RoundTrip>(m: T::Model, extra: Seq<u8>)
    requires
        T::valid(m),
        extra.len() > 0,
    ensures
        T::decode(T::encode(m) + extra) == Some((m, T::encode(m).len() as int)),
        decode_exact::<T>(T::encode(m) + extra) is None,
{
    T::lemma_round_trip(m, extra);
}

/// A string whose count of bytes is right but whose bytes are no valid UTF-8
/// is rejected, whatever follows it.
pub proof fn lemma_invalid_utf8_rejected(bytes: Seq<u8>, rest: Seq<u8>)
    requires
        bytes.len() <= u64::MAX,
        !valid_utf8(bytes),
    ensures
        String::decode(le_bytes(bytes.len(), 8) + bytes + rest) is None,
        Vec::<u8>::decode(le_bytes(bytes.len(), 8) + bytes + rest) == Some(
            (bytes, 8 + bytes.len() as int),
        ),
{
    let input = le_bytes(bytes.len(), 8) + bytes + rest;
    lemma_pow256_values();
    lemma_le_prefix(bytes.len(), 8, bytes + rest);
    assert(input =~= le_bytes(bytes.len(), 8) + (bytes + rest));
    lemma_decode_byte_vec(input);
    assert(input.skip(8).take(bytes.len() as int) =~= bytes);
}

} // verus!
