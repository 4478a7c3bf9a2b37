//! Codecs of fixed shape: the unit, pairs, triples and arrays. Their parts
//! are written one after the other, with nothing before or between them.
use crate::codec::{Binary, RoundTrip};
use crate::sequence::{
    decode_n, encode_all, lemma_decode_n_bounds, lemma_decode_n_prefix, lemma_round_trip_all,
    model_all, parse_n,
    same_all, unparse_all, valid_all,
};
use vstd::prelude::*;

verus! {

/// The conversion of a vector to an array, `TryFrom<Vec<T>>` for `[T; N]` of
/// the standard library: it succeeds exactly when the vector holds `N`
/// elements, and the array then holds them in the same order.
#[verifier::external_body]
fn into_array<A, const N: usize>(v: Vec<A>) -> (r: Option<[A; N]>)
    ensures
        r is Some <==> v@.len() == N,
        r matches Some(a) ==> a@ == v@,
{
    <[A; N]>::try_from(v).ok()
}

impl Binary for () {
    type Model = ();

    open spec fn model(&self) -> () {
        ()
    }

    open spec fn valid(m: ()) -> bool {
        true
    }

    open spec fn same(a: (), b: ()) -> bool {
        true
    }

    /// Nothing is written.
    open spec fn encode(m: ()) -> Seq<u8> {
        Seq::empty()
    }

    open spec fn decode(bs: Seq<u8>) -> Option<((), int)> {
        Some(((), 0))
    }

    open spec fn min_width() -> nat {
        0
    }

    proof fn lemma_decode_bounds(bs: Seq<u8>) {
        assert(Self::min_width() == 0);
    }

    proof fn lemma_decode_prefix(bs: Seq<u8>, other: Seq<u8>) {
    }

    fn parse(bs: &[u8]) -> (r: Option<(Self, &[u8])>) {
        proof {
            Self::lemma_decode_bounds(bs@);
        }
        proof {
            assert(bs@.skip(0) =~= bs@);
        }
        Some(((), bs))
    }

    fn unparse(&self, bs: &mut Vec<u8>) {
        proof {
            assert(bs@ + Seq::<u8>::empty() =~= bs@);
        }
    }
}

impl RoundTrip for () {
    proof fn lemma_round_trip(m: (), rest: Seq<u8>) {
    }
}

impl<A: Binary, B: Binary> Binary for (A, B) {
    type Model = (A::Model, B::Model);

    open spec fn model(&self) -> (A::Model, B::Model) {
        (self.0.model(), self.1.model())
    }

    open spec fn valid(m: (A::Model, B::Model)) -> bool {
        A::valid(m.0) && B::valid(m.1)
    }

    open spec fn same(a: (A::Model, B::Model), b: (A::Model, B::Model)) -> bool {
        A::same(a.0, b.0) && B::same(a.1, b.1)
    }

    /// The first component, then the second.
    open spec fn encode(m: (A::Model, B::Model)) -> Seq<u8> {
        A::encode(m.0) + B::encode(m.1)
    }

    open spec fn decode(bs: Seq<u8>) -> Option<((A::Model, B::Model), int)> {
        match A::decode(bs) {
            Some((a, n)) => match B::decode(bs.skip(n)) {
                Some((b, k)) => Some(((a, b), n + k)),
                None => None,
            },
            None => None,
        }
    }

    open spec fn min_width() -> nat {
        A::min_width() + B::min_width()
    }

    proof fn lemma_decode_bounds(bs: Seq<u8>) {
        assert(Self::min_width() == A::min_width() + B::min_width());
        A::lemma_decode_bounds(bs);
        if let Some((a, n)) = A::decode(bs) {
            B::lemma_decode_bounds(bs.skip(n));
        }
    }

    proof fn lemma_decode_prefix(bs: Seq<u8>, other: Seq<u8>) {
        let (a, n) = A::decode(bs).unwrap();
        let (b, k) = B::decode(bs.skip(n)).unwrap();
        A::lemma_decode_bounds(bs);
        B::lemma_decode_bounds(bs.skip(n));
        assert(other.take(n) =~= other.take(n + k).take(n));
        assert(bs.take(n) =~= bs.take(n + k).take(n));
        A::lemma_decode_prefix(bs, other);
        assert(other.skip(n).take(k) =~= other.take(n + k).skip(n));
        assert(bs.skip(n).take(k) =~= bs.take(n + k).skip(n));
        B::lemma_decode_prefix(bs.skip(n), other.skip(n));
    }

    fn parse(bs: &[u8]) -> (r: Option<(Self, &[u8])>) {
        proof {
            Self::lemma_decode_bounds(bs@);
        }
        proof {
            A::lemma_decode_bounds(bs@);
        }
        match A::parse(bs) {
            Some((a, bs1)) => {
                proof {
                    B::lemma_decode_bounds(bs1@);
                }
                match B::parse(bs1) {
                    Some((b, bs2)) => {
                        proof {
                            let n = A::decode(bs@).unwrap().1;
                            let k = B::decode(bs1@).unwrap().1;
                            assert(bs@.skip(n).skip(k) =~= bs@.skip(n + k));
                        }
                        Some(((a, b), bs2))
                    },
                    None => None,
                }
            },
            None => None,
        }
    }

    fn unparse(&self, bs: &mut Vec<u8>) {
        self.0.unparse(bs);
        self.1.unparse(bs);
        proof {
            assert(bs@ =~= old(bs)@ + Self::encode(self.model()));
        }
    }
}

impl<A: RoundTrip, B: RoundTrip> RoundTrip for (A, B) {
    proof fn lemma_round_trip(m: (A::Model, B::Model), rest: Seq<u8>) {
        let input = Self::encode(m) + rest;
        A::lemma_round_trip(m.0, B::encode(m.1) + rest);
        assert(input =~= A::encode(m.0) + (B::encode(m.1) + rest));
        assert(input.skip(A::encode(m.0).len() as int) =~= B::encode(m.1) + rest);
        B::lemma_round_trip(m.1, rest);
    }
}

impl<A: Binary, B: Binary, C: Binary> Binary for (A, B, C) {
    type Model = (A::Model, B::Model, C::Model);

    open spec fn model(&self) -> (A::Model, B::Model, C::Model) {
        (self.0.model(), self.1.model(), self.2.model())
    }

    open spec fn valid(m: (A::Model, B::Model, C::Model)) -> bool {
        A::valid(m.0) && B::valid(m.1) && C::valid(m.2)
    }

    open spec fn same(
        a: (A::Model, B::Model, C::Model),
        b: (A::Model, B::Model, C::Model),
    ) -> bool {
        A::same(a.0, b.0) && B::same(a.1, b.1) && C::same(a.2, b.2)
    }

    /// The three components in order.
    open spec fn encode(m: (A::Model, B::Model, C::Model)) -> Seq<u8> {
        A::encode(m.0) + B::encode(m.1) + C::encode(m.2)
    }

    open spec fn decode(bs: Seq<u8>) -> Option<((A::Model, B::Model, C::Model), int)> {
        match A::decode(bs) {
            Some((a, n)) => match B::decode(bs.skip(n)) {
                Some((b, k)) => match C::decode(bs.skip(n + k)) {
                    Some((c, j)) => Some(((a, b, c), n + k + j)),
                    None => None,
                },
                None => None,
            },
            None => None,
        }
    }

    open spec fn min_width() -> nat {
        A::min_width() + B::min_width() + C::min_width()
    }

    proof fn lemma_decode_bounds(bs: Seq<u8>) {
        assert(Self::min_width() == A::min_width() + B::min_width() + C::min_width());
        A::lemma_decode_bounds(bs);
        if let Some((a, n)) = A::decode(bs) {
            B::lemma_decode_bounds(bs.skip(n));
            if let Some((b, k)) = B::decode(bs.skip(n)) {
                C::lemma_decode_bounds(bs.skip(n + k));
            }
        }
    }

    proof fn lemma_decode_prefix(bs: Seq<u8>, other: Seq<u8>) {
        let (a, n) = A::decode(bs).unwrap();
        let (b, k) = B::decode(bs.skip(n)).unwrap();
        let (c, j) = C::decode(bs.skip(n + k)).unwrap();
        let all = n + k + j;
        A::lemma_decode_bounds(bs);
        B::lemma_decode_bounds(bs.skip(n));
        C::lemma_decode_bounds(bs.skip(n + k));
        assert(other.take(n) =~= other.take(all).take(n));
        assert(bs.take(n) =~= bs.take(all).take(n));
        A::lemma_decode_prefix(bs, other);
        assert(other.skip(n).take(k) =~= other.take(all).skip(n).take(k));
        assert(bs.skip(n).take(k) =~= bs.take(all).skip(n).take(k));
        B::lemma_decode_prefix(bs.skip(n), other.skip(n));
        assert(other.skip(n + k).take(j) =~= other.take(all).skip(n + k));
        assert(bs.skip(n + k).take(j) =~= bs.take(all).skip(n + k));
        C::lemma_decode_prefix(bs.skip(n + k), other.skip(n + k));
    }

    fn parse(bs: &[u8]) -> (r: Option<(Self, &[u8])>) {
        proof {
            Self::lemma_decode_bounds(bs@);
        }
        proof {
            A::lemma_decode_bounds(bs@);
        }
        match A::parse(bs) {
            Some((a, bs1)) => {
                proof {
                    B::lemma_decode_bounds(bs1@);
                }
                match B::parse(bs1) {
                    Some((b, bs2)) => {
                        proof {
                            let n = A::decode(bs@).unwrap().1;
                            let k = B::decode(bs1@).unwrap().1;
                            assert(bs@.skip(n).skip(k) =~= bs@.skip(n + k));
                            C::lemma_decode_bounds(bs2@);
                        }
                        match C::parse(bs2) {
                            Some((c, bs3)) => {
                                proof {
                                    let n = A::decode(bs@).unwrap().1;
                                    let k = B::decode(bs1@).unwrap().1;
                                    let j = C::decode(bs2@).unwrap().1;
                                    assert(bs@.skip(n + k).skip(j) =~= bs@.skip(n + k + j));
                                }
                                Some(((a, b, c), bs3))
                            },
                            None => None,
                        }
                    },
                    None => None,
                }
            },
            None => None,
        }
    }

    fn unparse(&self, bs: &mut Vec<u8>) {
        self.0.unparse(bs);
        self.1.unparse(bs);
        self.2.unparse(bs);
        proof {
            assert(bs@ =~= old(bs)@ + Self::encode(self.model()));
        }
    }
}

impl<A: RoundTrip, B: RoundTrip, C: RoundTrip> RoundTrip for (A, B, C) {
    proof fn lemma_round_trip(m: (A::Model, B::Model, C::Model), rest: Seq<u8>) {
        let input = Self::encode(m) + rest;
        let n = A::encode(m.0).len() as int;
        let k = B::encode(m.1).len() as int;
        A::lemma_round_trip(m.0, B::encode(m.1) + (C::encode(m.2) + rest));
        assert(input =~= A::encode(m.0) + (B::encode(m.1) + (C::encode(m.2) + rest)));
        assert(input.skip(n) =~= B::encode(m.1) + (C::encode(m.2) + rest));
        B::lemma_round_trip(m.1, C::encode(m.2) + rest);
        assert(input.skip(n + k) =~= C::encode(m.2) + rest);
        C::lemma_round_trip(m.2, rest);
    }
}

impl<const LENGTH: usize, A: Binary> Binary for [A; LENGTH] {
    type Model = Seq<A::Model>;

    open spec fn model(&self) -> Seq<A::Model> {
        model_all(self@)
    }

    /// The number of elements is that of the type.
    open spec fn valid(m: Seq<A::Model>) -> bool {
        m.len() == LENGTH && valid_all::<A>(m)
    }

    open spec fn same(a: Seq<A::Model>, b: Seq<A::Model>) -> bool {
        same_all::<A>(a, b)
    }

    /// The elements in order, with no count before them.
    open spec fn encode(m: Seq<A::Model>) -> Seq<u8> {
        encode_all::<A>(m)
    }

    open spec fn decode(bs: Seq<u8>) -> Option<(Seq<A::Model>, int)> {
        decode_n::<A>(bs, LENGTH as nat)
    }

    open spec fn min_width() -> nat {
        LENGTH as nat * A::min_width()
    }

    proof fn lemma_decode_bounds(bs: Seq<u8>) {
        assert(Self::min_width() == LENGTH as nat * A::min_width());
        lemma_decode_n_bounds::<A>(bs, LENGTH as nat);
    }

    proof fn lemma_decode_prefix(bs: Seq<u8>, other: Seq<u8>) {
        lemma_decode_n_prefix::<A>(bs, other, LENGTH as nat);
    }

    fn parse(bs: &[u8]) -> (r: Option<(Self, &[u8])>) {
        proof {
            Self::lemma_decode_bounds(bs@);
        }
        proof {
            lemma_decode_n_bounds::<A>(bs@, LENGTH as nat);
        }
        match parse_n::<A>(bs, LENGTH as u64) {
            Some((v, rest)) => match into_array::<A, LENGTH>(v) {
                Some(array) => Some((array, rest)),
                None => None,
            },
            None => None,
        }
    }

    fn unparse(&self, bs: &mut Vec<u8>) {
        unparse_all::<A>(self.as_slice(), bs);
    }
}

impl<const LENGTH: usize, A: RoundTrip> RoundTrip for [A; LENGTH] {
    proof fn lemma_round_trip(m: Seq<A::Model>, rest: Seq<u8>) {
        lemma_round_trip_all::<A>(m, rest);
    }
}

} // verus!
