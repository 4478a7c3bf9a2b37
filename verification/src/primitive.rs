//! Codecs of fixed width: the machine integers, booleans and characters.
use crate::codec::{Binary, RoundTrip};
use crate::cursor::parse_bytes;
use crate::endian::{
    le_bytes, le_value, lemma_le_prefix, lemma_le_value_bound, lemma_pow256_values,
    lemma_twos_round_trip, read_le, twos, untwos, write_le,
};
use vstd::prelude::*;

verus! {

/// Whether `n` is the number of a Unicode scalar value: a code point that is
/// no surrogate.
pub open spec fn is_scalar_value(n: nat) -> bool {
    n <= 0xD7FF || 0xE000 <= n <= 0x10FFFF
}

/// `char::from_u32` of the standard library: the character with the given
/// number, and nothing where the number is that of no Unicode scalar value.
pub assume_specification[ char::from_u32 ](i: u32) -> (r: Option<char>)
    ensures
        r is Some <==> is_scalar_value(i as nat),
        r matches Some(c) ==> c as u32 == i,
;

impl Binary for u8 {
    type Model = u8;

    open spec fn model(&self) -> u8 {
        *self
    }

    open spec fn valid(m: u8) -> bool {
        true
    }

    open spec fn same(a: u8, b: u8) -> bool {
        a == b
    }

    /// The byte itself.
    open spec fn encode(m: u8) -> Seq<u8> {
        seq![m]
    }

    open spec fn decode(bs: Seq<u8>) -> Option<(u8, int)> {
        if bs.len() >= 1 {
            Some((bs[0], 1))
        } else {
            None
        }
    }

    open spec fn min_width() -> nat {
        1
    }

    proof fn lemma_decode_bounds(bs: Seq<u8>) {
        assert(Self::min_width() == 1);
    }

    proof fn lemma_decode_prefix(bs: Seq<u8>, other: Seq<u8>) {
        assert(Self::decode(bs) is Some ==> bs.len() >= 1);
        assert(other.take(1)[0] == bs.take(1)[0]);
    }

    fn parse(bs: &[u8]) -> (r: Option<(Self, &[u8])>) {
        proof {
            Self::lemma_decode_bounds(bs@);
        }
        match parse_bytes::<1>(bs) {
            Some((head, rest)) => Some((head[0], rest)),
            None => None,
        }
    }

    fn unparse(&self, bs: &mut Vec<u8>) {
        bs.push(*self);
    }
}

impl RoundTrip for u8 {
    proof fn lemma_round_trip(m: u8, rest: Seq<u8>) {
    }
}

impl Binary for u16 {
    type Model = u16;

    open spec fn model(&self) -> u16 {
        *self
    }

    open spec fn valid(m: u16) -> bool {
        true
    }

    open spec fn same(a: u16, b: u16) -> bool {
        a == b
    }

    /// The 2 bytes of the number, least significant first.
    open spec fn encode(m: u16) -> Seq<u8> {
        le_bytes(m as nat, 2)
    }

    open spec fn decode(bs: Seq<u8>) -> Option<(u16, int)> {
        if bs.len() >= 2 {
            Some((le_value(bs.take(2)) as u16, 2))
        } else {
            None
        }
    }

    open spec fn min_width() -> nat {
        2
    }

    proof fn lemma_decode_bounds(bs: Seq<u8>) {
        assert(Self::min_width() == 2);
        if let Some((m, n)) = Self::decode(bs) {
            assert(Self::valid(m));
        }
    }

    proof fn lemma_decode_prefix(bs: Seq<u8>, other: Seq<u8>) {
        assert(Self::decode(bs) is Some ==> bs.len() >= 2);
    }

    fn parse(bs: &[u8]) -> (r: Option<(Self, &[u8])>) {
        proof {
            Self::lemma_decode_bounds(bs@);
        }
        assert(Self::decode(bs@) is Some <==> bs@.len() >= 2);
        match parse_bytes::<2>(bs) {
            Some((head, rest)) => {
                let v: u128 = read_le(head.as_slice());
                proof {
                    lemma_pow256_values();
                    lemma_le_value_bound(head@);
                    assert(Self::decode(bs@) == Some((v as u16, 2int)));
                    assert(Self::same((v as u16).model(), v as u16));
                }
                Some((v as u16, rest))
            },
            None => None,
        }
    }

    fn unparse(&self, bs: &mut Vec<u8>) {
        write_le(*self as u128, 2, bs);
    }
}

impl RoundTrip for u16 {
    proof fn lemma_round_trip(m: u16, rest: Seq<u8>) {
        lemma_pow256_values();
        lemma_le_prefix(m as nat, 2, rest);
    }
}

impl Binary for u32 {
    type Model = u32;

    open spec fn model(&self) -> u32 {
        *self
    }

    open spec fn valid(m: u32) -> bool {
        true
    }

    open spec fn same(a: u32, b: u32) -> bool {
        a == b
    }

    /// The 4 bytes of the number, least significant first.
    open spec fn encode(m: u32) -> Seq<u8> {
        le_bytes(m as nat, 4)
    }

    open spec fn decode(bs: Seq<u8>) -> Option<(u32, int)> {
        if bs.len() >= 4 {
            Some((le_value(bs.take(4)) as u32, 4))
        } else {
            None
        }
    }

    open spec fn min_width() -> nat {
        4
    }

    proof fn lemma_decode_bounds(bs: Seq<u8>) {
        assert(Self::min_width() == 4);
        if let Some((m, n)) = Self::decode(bs) {
            assert(Self::valid(m));
        }
    }

    proof fn lemma_decode_prefix(bs: Seq<u8>, other: Seq<u8>) {
        assert(Self::decode(bs) is Some ==> bs.len() >= 4);
    }

    fn parse(bs: &[u8]) -> (r: Option<(Self, &[u8])>) {
        proof {
            Self::lemma_decode_bounds(bs@);
        }
        assert(Self::decode(bs@) is Some <==> bs@.len() >= 4);
        match parse_bytes::<4>(bs) {
            Some((head, rest)) => {
                let v: u128 = read_le(head.as_slice());
                proof {
                    lemma_pow256_values();
                    lemma_le_value_bound(head@);
                    assert(Self::decode(bs@) == Some((v as u32, 4int)));
                    assert(Self::same((v as u32).model(), v as u32));
                }
                Some((v as u32, rest))
            },
            None => None,
        }
    }

    fn unparse(&self, bs: &mut Vec<u8>) {
        write_le(*self as u128, 4, bs);
    }
}

impl RoundTrip for u32 {
    proof fn lemma_round_trip(m: u32, rest: Seq<u8>) {
        lemma_pow256_values();
        lemma_le_prefix(m as nat, 4, rest);
    }
}

impl Binary for u64 {
    type Model = u64;

    open spec fn model(&self) -> u64 {
        *self
    }

    open spec fn valid(m: u64) -> bool {
        true
    }

    open spec fn same(a: u64, b: u64) -> bool {
        a == b
    }

    /// The 8 bytes of the number, least significant first.
    open spec fn encode(m: u64) -> Seq<u8> {
        le_bytes(m as nat, 8)
    }

    open spec fn decode(bs: Seq<u8>) -> Option<(u64, int)> {
        if bs.len() >= 8 {
            Some((le_value(bs.take(8)) as u64, 8))
        } else {
            None
        }
    }

    open spec fn min_width() -> nat {
        8
    }

    proof fn lemma_decode_bounds(bs: Seq<u8>) {
        assert(Self::min_width() == 8);
        if let Some((m, n)) = Self::decode(bs) {
            assert(Self::valid(m));
        }
    }

    proof fn lemma_decode_prefix(bs: Seq<u8>, other: Seq<u8>) {
        assert(Self::decode(bs) is Some ==> bs.len() >= 8);
    }

    fn parse(bs: &[u8]) -> (r: Option<(Self, &[u8])>) {
        proof {
            Self::lemma_decode_bounds(bs@);
        }
        assert(Self::decode(bs@) is Some <==> bs@.len() >= 8);
        match parse_bytes::<8>(bs) {
            Some((head, rest)) => {
                let v: u128 = read_le(head.as_slice());
                proof {
                    lemma_pow256_values();
                    lemma_le_value_bound(head@);
                    assert(Self::decode(bs@) == Some((v as u64, 8int)));
                    assert(Self::same((v as u64).model(), v as u64));
                }
                Some((v as u64, rest))
            },
            None => None,
        }
    }

    fn unparse(&self, bs: &mut Vec<u8>) {
        write_le(*self as u128, 8, bs);
    }
}

impl RoundTrip for u64 {
    proof fn lemma_round_trip(m: u64, rest: Seq<u8>) {
        lemma_pow256_values();
        lemma_le_prefix(m as nat, 8, rest);
    }
}

impl Binary for u128 {
    type Model = u128;

    open spec fn model(&self) -> u128 {
        *self
    }

    open spec fn valid(m: u128) -> bool {
        true
    }

    open spec fn same(a: u128, b: u128) -> bool {
        a == b
    }

    /// The 16 bytes of the number, least significant first.
    open spec fn encode(m: u128) -> Seq<u8> {
        le_bytes(m as nat, 16)
    }

    open spec fn decode(bs: Seq<u8>) -> Option<(u128, int)> {
        if bs.len() >= 16 {
            Some((le_value(bs.take(16)) as u128, 16))
        } else {
            None
        }
    }

    open spec fn min_width() -> nat {
        16
    }

    proof fn lemma_decode_bounds(bs: Seq<u8>) {
        assert(Self::min_width() == 16);
        if let Some((m, n)) = Self::decode(bs) {
            assert(Self::valid(m));
        }
    }

    proof fn lemma_decode_prefix(bs: Seq<u8>, other: Seq<u8>) {
        assert(Self::decode(bs) is Some ==> bs.len() >= 16);
    }

    fn parse(bs: &[u8]) -> (r: Option<(Self, &[u8])>) {
        proof {
            Self::lemma_decode_bounds(bs@);
        }
        assert(Self::decode(bs@) is Some <==> bs@.len() >= 16);
        match parse_bytes::<16>(bs) {
            Some((head, rest)) => {
                let v: u128 = read_le(head.as_slice());
                proof {
                    lemma_pow256_values();
                    lemma_le_value_bound(head@);
                    assert(Self::decode(bs@) == Some((v as u128, 16int)));
                    assert(Self::same((v as u128).model(), v as u128));
                }
                Some((v as u128, rest))
            },
            None => None,
        }
    }

    fn unparse(&self, bs: &mut Vec<u8>) {
        write_le(*self as u128, 16, bs);
    }
}

impl RoundTrip for u128 {
    proof fn lemma_round_trip(m: u128, rest: Seq<u8>) {
        lemma_pow256_values();
        lemma_le_prefix(m as nat, 16, rest);
    }
}

impl Binary for i8 {
    type Model = i8;

    open spec fn model(&self) -> i8 {
        *self
    }

    open spec fn valid(m: i8) -> bool {
        true
    }

    open spec fn same(a: i8, b: i8) -> bool {
        a == b
    }

    /// The 1 bytes of the number in two's complement, least significant first.
    open spec fn encode(m: i8) -> Seq<u8> {
        le_bytes(twos(m as int, 1), 1)
    }

    open spec fn decode(bs: Seq<u8>) -> Option<(i8, int)> {
        if bs.len() >= 1 {
            Some((untwos(le_value(bs.take(1)), 1) as i8, 1))
        } else {
            None
        }
    }

    open spec fn min_width() -> nat {
        1
    }

    proof fn lemma_decode_bounds(bs: Seq<u8>) {
        assert(Self::min_width() == 1);
        if let Some((m, n)) = Self::decode(bs) {
            assert(Self::valid(m));
        }
    }

    proof fn lemma_decode_prefix(bs: Seq<u8>, other: Seq<u8>) {
        assert(Self::decode(bs) is Some ==> bs.len() >= 1);
    }

    fn parse(bs: &[u8]) -> (r: Option<(Self, &[u8])>) {
        proof {
            Self::lemma_decode_bounds(bs@);
        }
        assert(Self::decode(bs@) is Some <==> bs@.len() >= 1);
        match parse_bytes::<1>(bs) {
            Some((head, rest)) => {
                let v: u128 = read_le(head.as_slice());
                proof {
                    lemma_pow256_values();
                    lemma_le_value_bound(head@);
                }
                let x: i8 = if v < 0x80 {
                    v as i8
                } else {
                    (v as i16 - 0x100) as i8
                };
                proof {
                    assert(Self::decode(bs@) == Some((x, 1int)));
                    assert(Self::same(x.model(), x));
                }
                Some((x, rest))
            },
            None => None,
        }
    }

    fn unparse(&self, bs: &mut Vec<u8>) {
        let x: i8 = *self;
        proof {
            lemma_pow256_values();
        }
        let u: u128 = if x >= 0 {
            x as u128
        } else {
            (x as i128 + 0x100) as u128
        };
        write_le(u, 1, bs);
    }
}

impl RoundTrip for i8 {
    proof fn lemma_round_trip(m: i8, rest: Seq<u8>) {
        lemma_pow256_values();
        lemma_twos_round_trip(m as int, 1);
        lemma_le_prefix(twos(m as int, 1), 1, rest);
    }
}

impl Binary for i16 {
    type Model = i16;

    open spec fn model(&self) -> i16 {
        *self
    }

    open spec fn valid(m: i16) -> bool {
        true
    }

    open spec fn same(a: i16, b: i16) -> bool {
        a == b
    }

    /// The 2 bytes of the number in two's complement, least significant first.
    open spec fn encode(m: i16) -> Seq<u8> {
        le_bytes(twos(m as int, 2), 2)
    }

    open spec fn decode(bs: Seq<u8>) -> Option<(i16, int)> {
        if bs.len() >= 2 {
            Some((untwos(le_value(bs.take(2)), 2) as i16, 2))
        } else {
            None
        }
    }

    open spec fn min_width() -> nat {
        2
    }

    proof fn lemma_decode_bounds(bs: Seq<u8>) {
        assert(Self::min_width() == 2);
        if let Some((m, n)) = Self::decode(bs) {
            assert(Self::valid(m));
        }
    }

    proof fn lemma_decode_prefix(bs: Seq<u8>, other: Seq<u8>) {
        assert(Self::decode(bs) is Some ==> bs.len() >= 2);
    }

    fn parse(bs: &[u8]) -> (r: Option<(Self, &[u8])>) {
        proof {
            Self::lemma_decode_bounds(bs@);
        }
        assert(Self::decode(bs@) is Some <==> bs@.len() >= 2);
        match parse_bytes::<2>(bs) {
            Some((head, rest)) => {
                let v: u128 = read_le(head.as_slice());
                proof {
                    lemma_pow256_values();
                    lemma_le_value_bound(head@);
                }
                let x: i16 = if v < 0x8000 {
                    v as i16
                } else {
                    (v as i32 - 0x1_0000) as i16
                };
                proof {
                    assert(Self::decode(bs@) == Some((x, 2int)));
                    assert(Self::same(x.model(), x));
                }
                Some((x, rest))
            },
            None => None,
        }
    }

    fn unparse(&self, bs: &mut Vec<u8>) {
        let x: i16 = *self;
        proof {
            lemma_pow256_values();
        }
        let u: u128 = if x >= 0 {
            x as u128
        } else {
            (x as i128 + 0x1_0000) as u128
        };
        write_le(u, 2, bs);
    }
}

impl RoundTrip for i16 {
    proof fn lemma_round_trip(m: i16, rest: Seq<u8>) {
        lemma_pow256_values();
        lemma_twos_round_trip(m as int, 2);
        lemma_le_prefix(twos(m as int, 2), 2, rest);
    }
}

impl Binary for i32 {
    type Model = i32;

    open spec fn model(&self) -> i32 {
        *self
    }

    open spec fn valid(m: i32) -> bool {
        true
    }

    open spec fn same(a: i32, b: i32) -> bool {
        a == b
    }

    /// The 4 bytes of the number in two's complement, least significant first.
    open spec fn encode(m: i32) -> Seq<u8> {
        le_bytes(twos(m as int, 4), 4)
    }

    open spec fn decode(bs: Seq<u8>) -> Option<(i32, int)> {
        if bs.len() >= 4 {
            Some((untwos(le_value(bs.take(4)), 4) as i32, 4))
        } else {
            None
        }
    }

    open spec fn min_width() -> nat {
        4
    }

    proof fn lemma_decode_bounds(bs: Seq<u8>) {
        assert(Self::min_width() == 4);
        if let Some((m, n)) = Self::decode(bs) {
            assert(Self::valid(m));
        }
    }

    proof fn lemma_decode_prefix(bs: Seq<u8>, other: Seq<u8>) {
        assert(Self::decode(bs) is Some ==> bs.len() >= 4);
    }

    fn parse(bs: &[u8]) -> (r: Option<(Self, &[u8])>) {
        proof {
            Self::lemma_decode_bounds(bs@);
        }
        assert(Self::decode(bs@) is Some <==> bs@.len() >= 4);
        match parse_bytes::<4>(bs) {
            Some((head, rest)) => {
                let v: u128 = read_le(head.as_slice());
                proof {
                    lemma_pow256_values();
                    lemma_le_value_bound(head@);
                }
                let x: i32 = if v < 0x8000_0000 {
                    v as i32
                } else {
                    (v as i64 - 0x1_0000_0000) as i32
                };
                proof {
                    assert(Self::decode(bs@) == Some((x, 4int)));
                    assert(Self::same(x.model(), x));
                }
                Some((x, rest))
            },
            None => None,
        }
    }

    fn unparse(&self, bs: &mut Vec<u8>) {
        let x: i32 = *self;
        proof {
            lemma_pow256_values();
        }
        let u: u128 = if x >= 0 {
            x as u128
        } else {
            (x as i128 + 0x1_0000_0000) as u128
        };
        write_le(u, 4, bs);
    }
}

impl RoundTrip for i32 {
    proof fn lemma_round_trip(m: i32, rest: Seq<u8>) {
        lemma_pow256_values();
        lemma_twos_round_trip(m as int, 4);
        lemma_le_prefix(twos(m as int, 4), 4, rest);
    }
}

impl Binary for i64 {
    type Model = i64;

    open spec fn model(&self) -> i64 {
        *self
    }

    open spec fn valid(m: i64) -> bool {
        true
    }

    open spec fn same(a: i64, b: i64) -> bool {
        a == b
    }

    /// The 8 bytes of the number in two's complement, least significant first.
    open spec fn encode(m: i64) -> Seq<u8> {
        le_bytes(twos(m as int, 8), 8)
    }

    open spec fn decode(bs: Seq<u8>) -> Option<(i64, int)> {
        if bs.len() >= 8 {
            Some((untwos(le_value(bs.take(8)), 8) as i64, 8))
        } else {
            None
        }
    }

    open spec fn min_width() -> nat {
        8
    }

    proof fn lemma_decode_bounds(bs: Seq<u8>) {
        assert(Self::min_width() == 8);
        if let Some((m, n)) = Self::decode(bs) {
            assert(Self::valid(m));
        }
    }

    proof fn lemma_decode_prefix(bs: Seq<u8>, other: Seq<u8>) {
        assert(Self::decode(bs) is Some ==> bs.len() >= 8);
    }

    fn parse(bs: &[u8]) -> (r: Option<(Self, &[u8])>) {
        proof {
            Self::lemma_decode_bounds(bs@);
        }
        assert(Self::decode(bs@) is Some <==> bs@.len() >= 8);
        match parse_bytes::<8>(bs) {
            Some((head, rest)) => {
                let v: u128 = read_le(head.as_slice());
                proof {
                    lemma_pow256_values();
                    lemma_le_value_bound(head@);
                }
                let x: i64 = if v < 0x8000_0000_0000_0000 {
                    v as i64
                } else {
                    (v as i128 - 0x1_0000_0000_0000_0000) as i64
                };
                proof {
                    assert(Self::decode(bs@) == Some((x, 8int)));
                    assert(Self::same(x.model(), x));
                }
                Some((x, rest))
            },
            None => None,
        }
    }

    fn unparse(&self, bs: &mut Vec<u8>) {
        let x: i64 = *self;
        proof {
            lemma_pow256_values();
        }
        let u: u128 = if x >= 0 {
            x as u128
        } else {
            (x as i128 + 0x1_0000_0000_0000_0000) as u128
        };
        write_le(u, 8, bs);
    }
}

impl RoundTrip for i64 {
    proof fn lemma_round_trip(m: i64, rest: Seq<u8>) {
        lemma_pow256_values();
        lemma_twos_round_trip(m as int, 8);
        lemma_le_prefix(twos(m as int, 8), 8, rest);
    }
}

impl Binary for i128 {
    type Model = i128;

    open spec fn model(&self) -> i128 {
        *self
    }

    open spec fn valid(m: i128) -> bool {
        true
    }

    open spec fn same(a: i128, b: i128) -> bool {
        a == b
    }

    /// The 16 bytes of the number in two's complement, least significant first.
    open spec fn encode(m: i128) -> Seq<u8> {
        le_bytes(twos(m as int, 16), 16)
    }

    open spec fn decode(bs: Seq<u8>) -> Option<(i128, int)> {
        if bs.len() >= 16 {
            Some((untwos(le_value(bs.take(16)), 16) as i128, 16))
        } else {
            None
        }
    }

    open spec fn min_width() -> nat {
        16
    }

    proof fn lemma_decode_bounds(bs: Seq<u8>) {
        assert(Self::min_width() == 16);
        if let Some((m, n)) = Self::decode(bs) {
            assert(Self::valid(m));
        }
    }

    proof fn lemma_decode_prefix(bs: Seq<u8>, other: Seq<u8>) {
        assert(Self::decode(bs) is Some ==> bs.len() >= 16);
    }

    fn parse(bs: &[u8]) -> (r: Option<(Self, &[u8])>) {
        proof {
            Self::lemma_decode_bounds(bs@);
        }
        assert(Self::decode(bs@) is Some <==> bs@.len() >= 16);
        match parse_bytes::<16>(bs) {
            Some((head, rest)) => {
                let v: u128 = read_le(head.as_slice());
                proof {
                    lemma_pow256_values();
                    lemma_le_value_bound(head@);
                }
                let x: i128 = if v < 0x8000_0000_0000_0000_0000_0000_0000_0000 {
                    v as i128
                } else {
                    (v - 0x8000_0000_0000_0000_0000_0000_0000_0000) as i128 + i128::MIN
                };
                proof {
                    assert(Self::decode(bs@) == Some((x, 16int)));
                    assert(Self::same(x.model(), x));
                }
                Some((x, rest))
            },
            None => None,
        }
    }

    fn unparse(&self, bs: &mut Vec<u8>) {
        let x: i128 = *self;
        proof {
            lemma_pow256_values();
        }
        let u: u128 = if x >= 0 {
            x as u128
        } else {
            (x - i128::MIN) as u128 + 0x8000_0000_0000_0000_0000_0000_0000_0000
        };
        write_le(u, 16, bs);
    }
}

impl RoundTrip for i128 {
    proof fn lemma_round_trip(m: i128, rest: Seq<u8>) {
        lemma_pow256_values();
        lemma_twos_round_trip(m as int, 16);
        lemma_le_prefix(twos(m as int, 16), 16, rest);
    }
}

impl Binary for bool {
    type Model = bool;

    open spec fn model(&self) -> bool {
        *self
    }

    open spec fn valid(m: bool) -> bool {
        true
    }

    open spec fn same(a: bool, b: bool) -> bool {
        a == b
    }

    /// One byte: 1 for true, 0 for false.
    open spec fn encode(m: bool) -> Seq<u8> {
        seq![if m { 1u8 } else { 0u8 }]
    }

    /// Any byte but 0 and 1 is rejected.
    open spec fn decode(bs: Seq<u8>) -> Option<(bool, int)> {
        if bs.len() >= 1 && bs[0] <= 1 {
            Some((bs[0] == 1, 1))
        } else {
            None
        }
    }

    open spec fn min_width() -> nat {
        1
    }

    proof fn lemma_decode_bounds(bs: Seq<u8>) {
        assert(Self::min_width() == 1);
    }

    proof fn lemma_decode_prefix(bs: Seq<u8>, other: Seq<u8>) {
        assert(Self::decode(bs) is Some ==> bs.len() >= 1);
        assert(other.take(1)[0] == bs.take(1)[0]);
    }

    fn parse(bs: &[u8]) -> (r: Option<(Self, &[u8])>) {
        proof {
            Self::lemma_decode_bounds(bs@);
        }
        match u8::parse(bs) {
            Some((b, rest)) => {
                if b == 1 {
                    Some((true, rest))
                } else if b == 0 {
                    Some((false, rest))
                } else {
                    None
                }
            },
            None => None,
        }
    }

    fn unparse(&self, bs: &mut Vec<u8>) {
        bs.push(if *self { 1 } else { 0 });
    }
}

impl RoundTrip for bool {
    proof fn lemma_round_trip(m: bool, rest: Seq<u8>) {
    }
}

impl Binary for char {
    type Model = char;

    open spec fn model(&self) -> char {
        *self
    }

    open spec fn valid(m: char) -> bool {
        true
    }

    open spec fn same(a: char, b: char) -> bool {
        a == b
    }

    /// The number of the character as four bytes, least significant first.
    open spec fn encode(m: char) -> Seq<u8> {
        le_bytes(m as u32 as nat, 4)
    }

    /// Four bytes that spell the number of no Unicode scalar value are rejected.
    open spec fn decode(bs: Seq<u8>) -> Option<(char, int)> {
        if bs.len() >= 4 && is_scalar_value(le_value(bs.take(4))) {
            Some((le_value(bs.take(4)) as u32 as char, 4))
        } else {
            None
        }
    }

    open spec fn min_width() -> nat {
        4
    }

    proof fn lemma_decode_bounds(bs: Seq<u8>) {
        assert(Self::min_width() == 4);
    }

    proof fn lemma_decode_prefix(bs: Seq<u8>, other: Seq<u8>) {
        assert(Self::decode(bs) is Some ==> bs.len() >= 4);
    }

    fn parse(bs: &[u8]) -> (r: Option<(Self, &[u8])>) {
        proof {
            Self::lemma_decode_bounds(bs@);
        }
        match u32::parse(bs) {
            Some((n, rest)) => {
                proof {
                    lemma_pow256_values();
                    lemma_le_value_bound(bs@.take(4));
                }
                match char::from_u32(n) {
                    Some(c) => {
                        proof {
                            vstd::utf8::char_u32_cast(c, n);
                        }
                        Some((c, rest))
                    },
                    None => None,
                }
            },
            None => None,
        }
    }

    fn unparse(&self, bs: &mut Vec<u8>) {
        let n: u32 = *self as u32;
        n.unparse(bs);
    }
}

impl RoundTrip for char {
    proof fn lemma_round_trip(m: char, rest: Seq<u8>) {
        lemma_pow256_values();
        lemma_le_prefix(m as u32 as nat, 4, rest);
        vstd::utf8::char_is_scalar(m);
        vstd::utf8::char_u32_cast(m, m as u32);
    }
}

} // verus!
