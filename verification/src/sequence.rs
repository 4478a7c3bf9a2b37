//! Runs of elements, one encoding after the other, and the containers of
//! variable length that are written as a count followed by such a run.
use crate::codec::{Binary, RoundTrip};
use crate::endian::{
    le_bytes, le_value, lemma_le_bytes_len, lemma_le_prefix, lemma_le_value_bound,
    lemma_pow256_values,
};
use vstd::prelude::*;

verus! {

/// The models of the elements of `s`, in order.
pub open spec fn model_all<A: Binary>(s: Seq<A>) -> Seq<A::Model> {
    Seq::new(s.len(), |i: int| s[i].model())
}

/// Whether every element of `m` can be encoded.
pub open spec fn valid_all<A: Binary>(m: Seq<A::Model>) -> bool {
    forall|i: int| 0 <= i < m.len() ==> A::valid(#[trigger] m[i])
}

/// Whether `a` and `b` hold the same values in the same order.
pub open spec fn same_all<A: Binary>(a: Seq<A::Model>, b: Seq<A::Model>) -> bool {
    &&& a.len() == b.len()
    &&& forall|i: int| 0 <= i < a.len() ==> A::same(#[trigger] a[i], b[i])
}

/// The encodings of the elements of `m`, one after the other.
pub open spec fn encode_all<A: Binary>(m: Seq<A::Model>) -> Seq<u8>
    decreases m.len(),
{
    if m.len() == 0 {
        Seq::empty()
    } else {
        encode_all::<A>(m.drop_last()) + A::encode(m.last())
    }
}

/// The first `n` elements that `bs` holds one after the other, with the
/// number of bytes that they occupy together; `None` as soon as one of them
/// fails to decode.
pub open spec fn decode_n<A: Binary>(bs: Seq<u8>, n: nat) -> Option<(Seq<A::Model>, int)>
    decreases n,
{
    if n == 0 {
        Some((Seq::empty(), 0))
    } else {
        match decode_n::<A>(bs, (n - 1) as nat) {
            Some((front, used)) => match A::decode(bs.skip(used)) {
                Some((last, width)) => Some((front.push(last), used + width)),
                None => None,
            },
            None => None,
        }
    }
}

/// A run that decodes holds `n` valid elements in a prefix of the input, and
/// each of them takes at least its codec's minimum width.
pub proof fn lemma_decode_n_bounds<A: Binary>(bs: Seq<u8>, n: nat)
    ensures
        decode_n::<A>(bs, n) matches Some((m, used)) ==> {
            &&& m.len() == n
            &&& valid_all::<A>(m)
            &&& n * A::min_width() <= used
            &&& used <= bs.len()
        },
    decreases n,
{
    if n > 0 {
        lemma_decode_n_bounds::<A>(bs, (n - 1) as nat);
        if let Some((front, used)) = decode_n::<A>(bs, (n - 1) as nat) {
            A::lemma_decode_bounds(bs.skip(used));
            assert((n - 1) * A::min_width() + A::min_width() == n * A::min_width())
                by (nonlinear_arith);
        }
    }
}

/// Once an element fails to decode, every longer run fails too.
pub proof fn lemma_decode_n_fails<A: Binary>(bs: Seq<u8>, i: nat, n: nat)
    requires
        i <= n,
        decode_n::<A>(bs, i) is None,
    ensures
        decode_n::<A>(bs, n) is None,
    decreases n,
{
    if i < n {
        lemma_decode_n_fails::<A>(bs, i, (n - 1) as nat);
    }
}

/// A run reads no byte beyond those it consumes: an input that begins with
/// the same bytes holds the same run in as many bytes.
pub proof fn lemma_decode_n_prefix<A: Binary>(bs: Seq<u8>, other: Seq<u8>, n: nat)
    requires
        decode_n::<A>(bs, n) matches Some((_, used)) && used <= other.len() && other.take(used)
            == bs.take(used),
    ensures
        decode_n::<A>(other, n) == decode_n::<A>(bs, n),
    decreases n,
{
    if n > 0 {
        let (front, before) = decode_n::<A>(bs, (n - 1) as nat).unwrap();
        let (last, width) = A::decode(bs.skip(before)).unwrap();
        let used = before + width;
        lemma_decode_n_bounds::<A>(bs, (n - 1) as nat);
        A::lemma_decode_bounds(bs.skip(before));
        assert(other.take(before) =~= other.take(used).take(before));
        assert(bs.take(before) =~= bs.take(used).take(before));
        lemma_decode_n_prefix::<A>(bs, other, (n - 1) as nat);
        assert(other.skip(before).take(width) =~= other.take(used).skip(before));
        assert(bs.skip(before).take(width) =~= bs.take(used).skip(before));
        A::lemma_decode_prefix(bs.skip(before), other.skip(before));
    }
}

/// A run of encodings decodes to the elements it was made of, and leaves
/// what followed it.
pub proof fn lemma_round_trip_all<A: RoundTrip>(m: Seq<A::Model>, rest: Seq<u8>)
    requires
        valid_all::<A>(m),
    ensures
        decode_n::<A>(encode_all::<A>(m) + rest, m.len()) == Some(
            (m, encode_all::<A>(m).len() as int),
        ),
    decreases m.len(),
{
    if m.len() > 0 {
        let front = m.drop_last();
        let tail = A::encode(m.last()) + rest;
        let input = encode_all::<A>(m) + rest;
        lemma_round_trip_all::<A>(front, tail);
        assert(input =~= encode_all::<A>(front) + tail);
        assert(input.skip(encode_all::<A>(front).len() as int) =~= tail);
        A::lemma_round_trip(m.last(), rest);
        assert(front.push(m.last()) =~= m);
    }
}

/// A run of bytes is its own encoding.
pub proof fn lemma_encode_all_bytes(m: Seq<u8>)
    ensures
        encode_all::<u8>(m) == m,
    decreases m.len(),
{
    if m.len() > 0 {
        lemma_encode_all_bytes(m.drop_last());
        assert(m.drop_last() + seq![m.last()] =~= m);
    }
}

/// A run of `n` bytes decodes exactly when `n` bytes are there, to those bytes.
pub proof fn lemma_decode_n_bytes(bs: Seq<u8>, n: nat)
    ensures
        decode_n::<u8>(bs, n) == if n <= bs.len() {
            Some((bs.take(n as int), n as int))
        } else {
            None
        },
    decreases n,
{
    if n > 0 {
        lemma_decode_n_bytes(bs, (n - 1) as nat);
        if n <= bs.len() {
            assert(bs.take(n - 1).push(bs.skip(n - 1)[0]) =~= bs.take(n as int));
        }
    }
}

/// Reads `n` elements one after the other off the front of `bs`.
pub fn parse_n<A: Binary>(bs: &[u8], n: u64) -> (r: Option<(Vec<A>, &[u8])>)
    ensures
        r is Some <==> decode_n::<A>(bs@, n as nat) is Some,
        r matches Some((v, rest)) ==> (decode_n::<A>(bs@, n as nat) matches Some((m, used))
            && same_all::<A>(model_all(v@), m) && 0 <= used <= bs@.len() && rest@ == bs@.skip(
            used,
        )),
{
    let mut v: Vec<A> = Vec::new();
    let mut cur: &[u8] = bs;
    let mut i: u64 = 0;
    let ghost mut m: Seq<A::Model> = Seq::empty();
    let ghost mut used: int = 0;
    proof {
        assert(bs@.skip(0) =~= bs@);
    }
    while i < n
        invariant
            i <= n,
            decode_n::<A>(bs@, i as nat) == Some((m, used)),
            0 <= used <= bs@.len(),
            cur@ == bs@.skip(used),
            same_all::<A>(model_all(v@), m),
        decreases n - i,
    {
        proof {
            A::lemma_decode_bounds(cur@);
        }
        match A::parse(cur) {
            Some((a, next)) => {
                let ghost front = v@;
                let ghost front_m = m;
                proof {
                    let (last, width) = A::decode(cur@).unwrap();
                    assert(bs@.skip(used).skip(width) =~= bs@.skip(used + width));
                    m = m.push(last);
                    used = used + width;
                }
                v.push(a);
                cur = next;
                proof {
                    assert forall|j: int| 0 <= j < v@.len() implies A::same(
                        #[trigger] model_all(v@)[j],
                        m[j],
                    ) by {
                        if j < front.len() {
                            assert(A::same(model_all(front)[j], front_m[j]));
                        }
                    }
                }
            },
            None => {
                proof {
                    lemma_decode_n_fails::<A>(bs@, (i + 1) as nat, n as nat);
                }
                return None;
            },
        }
        i = i + 1;
    }
    Some((v, cur))
}

/// Appends the encodings of `items`, one after the other.
pub fn unparse_all<A: Binary>(items: &[A], bs: &mut Vec<u8>)
    ensures
        valid_all::<A>(model_all(items@)),
        final(bs)@ == old(bs)@ + encode_all::<A>(model_all(items@)),
{
    let mut i: usize = 0;
    proof {
        assert(model_all(items@).take(0) =~= Seq::<A::Model>::empty());
    }
    while i < items.len()
        invariant
            i <= items@.len(),
            valid_all::<A>(model_all(items@).take(i as int)),
            bs@ == old(bs)@ + encode_all::<A>(model_all(items@).take(i as int)),
        decreases items@.len() - i,
    {
        let ghost done = model_all(items@).take(i as int);
        let ghost next = model_all(items@).take(i + 1);
        items[i].unparse(bs);
        proof {
            assert(next.drop_last() =~= done);
            assert(next.last() == items@[i as int].model());
            assert forall|j: int| 0 <= j < next.len() implies A::valid(#[trigger] next[j]) by {
                if j < i {
                    assert(next[j] == done[j]);
                }
            }
        }
        i = i + 1;
    }
    proof {
        assert(model_all(items@).take(i as int) =~= model_all(items@));
    }
}

impl<A: Binary> Binary for Vec<A> {
    type Model = Seq<A::Model>;

    open spec fn model(&self) -> Seq<A::Model> {
        model_all(self@)
    }

    /// The count has to fit the eight bytes that are written for it.
    open spec fn valid(m: Seq<A::Model>) -> bool {
        m.len() <= u64::MAX && valid_all::<A>(m)
    }

    open spec fn same(a: Seq<A::Model>, b: Seq<A::Model>) -> bool {
        same_all::<A>(a, b)
    }

    /// The number of elements in eight bytes, then the elements in order.
    open spec fn encode(m: Seq<A::Model>) -> Seq<u8> {
        le_bytes(m.len(), 8) + encode_all::<A>(m)
    }

    open spec fn decode(bs: Seq<u8>) -> Option<(Seq<A::Model>, int)> {
        if bs.len() >= 8 {
            match decode_n::<A>(bs.skip(8), le_value(bs.take(8))) {
                Some((m, used)) => Some((m, 8 + used)),
                None => None,
            }
        } else {
            None
        }
    }

    open spec fn min_width() -> nat {
        8
    }

    proof fn lemma_decode_bounds(bs: Seq<u8>) {
        assert(Self::min_width() == 8);
        if bs.len() >= 8 {
            lemma_pow256_values();
            lemma_le_value_bound(bs.take(8));
            lemma_decode_n_bounds::<A>(bs.skip(8), le_value(bs.take(8)));
        }
    }

    proof fn lemma_decode_prefix(bs: Seq<u8>, other: Seq<u8>) {
        let n = le_value(bs.take(8));
        let (m, used) = decode_n::<A>(bs.skip(8), n).unwrap();
        lemma_decode_n_bounds::<A>(bs.skip(8), n);
        assert(other.take(8) =~= other.take(8 + used).take(8));
        assert(bs.take(8) =~= bs.take(8 + used).take(8));
        assert(other.skip(8).take(used) =~= other.take(8 + used).skip(8));
        assert(bs.skip(8).take(used) =~= bs.take(8 + used).skip(8));
        lemma_decode_n_prefix::<A>(bs.skip(8), other.skip(8), n);
    }

    fn parse(bs: &[u8]) -> (r: Option<(Self, &[u8])>) {
        proof {
            Self::lemma_decode_bounds(bs@);
        }
        match u64::parse(bs) {
            Some((n, rest)) => {
                proof {
                    lemma_pow256_values();
                    lemma_le_value_bound(bs@.take(8));
                    lemma_decode_n_bounds::<A>(bs@.skip(8), n as nat);
                }
                match parse_n::<A>(rest, n) {
                    Some((v, rest)) => {
                        proof {
                            let (m, used) = decode_n::<A>(bs@.skip(8), n as nat).unwrap();
                            assert(bs@.skip(8).skip(used) =~= bs@.skip(8 + used));
                        }
                        Some((v, rest))
                    },
                    None => None,
                }
            },
            None => None,
        }
    }

    fn unparse(&self, bs: &mut Vec<u8>) {
        let n: u64 = self.len() as u64;
        n.unparse(bs);
        unparse_all::<A>(self.as_slice(), bs);
        proof {
            assert(bs@ =~= old(bs)@ + Self::encode(self.model()));
        }
    }
}

impl<A: RoundTrip> RoundTrip for Vec<A> {
    proof fn lemma_round_trip(m: Seq<A::Model>, rest: Seq<u8>) {
        let input = Self::encode(m) + rest;
        lemma_pow256_values();
        lemma_le_bytes_len(m.len(), 8);
        lemma_le_prefix(m.len(), 8, encode_all::<A>(m) + rest);
        assert(input =~= le_bytes(m.len(), 8) + (encode_all::<A>(m) + rest));
        lemma_round_trip_all::<A>(m, rest);
    }
}

} // verus!
