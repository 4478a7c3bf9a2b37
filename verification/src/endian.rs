//! Little-endian numbers: what a run of bytes spells, and how a number is
//! spelled in a fixed number of bytes.
use vstd::prelude::*;

verus! {

/// 256 to the power of `n`.
pub open spec fn pow256(n: nat) -> nat
    decreases n,
{
    if n == 0 {
        1
    } else {
        256 * pow256((n - 1) as nat)
    }
}

/// The number that the bytes of `s` spell, least significant byte first.
pub open spec fn le_value(s: Seq<u8>) -> nat
    decreases s.len(),
{
    if s.len() == 0 {
        0
    } else {
        s[0] as nat + 256 * le_value(s.drop_first())
    }
}

/// The `n` low bytes of `x`, least significant byte first.
pub open spec fn le_bytes(x: nat, n: nat) -> Seq<u8>
    decreases n,
{
    if n == 0 {
        Seq::empty()
    } else {
        seq![(x % 256) as u8] + le_bytes(x / 256, (n - 1) as nat)
    }
}

/// The two's complement of `x` in `n` bytes.
pub open spec fn twos(x: int, n: nat) -> nat {
    if x >= 0 {
        x as nat
    } else {
        (x + pow256(n)) as nat
    }
}

/// The signed number that the `n`-byte two's complement `u` stands for.
pub open spec fn untwos(u: nat, n: nat) -> int {
    if 2 * u < pow256(n) {
        u as int
    } else {
        u - pow256(n)
    }
}

/// The powers of 256 at the widths of the machine integers.
pub proof fn lemma_pow256_values()
    ensures
        pow256(0) == 1,
        pow256(1) == 0x100,
        pow256(2) == 0x1_0000,
        pow256(4) == 0x1_0000_0000,
        pow256(8) == 0x1_0000_0000_0000_0000,
        pow256(15) == 0x1_0000_0000_0000_0000_0000_0000_0000_00,
        pow256(16) == 0x1_0000_0000_0000_0000_0000_0000_0000_0000,
{
    reveal_with_fuel(pow256, 17);
}

/// Powers of 256 grow with the exponent.
pub proof fn lemma_pow256_monotonic(a: nat, b: nat)
    requires
        a <= b,
    ensures
        1 <= pow256(a) <= pow256(b),
    decreases b,
{
    if b == 0 {
    } else if a == b {
        lemma_pow256_monotonic((a - 1) as nat, (b - 1) as nat);
    } else {
        lemma_pow256_monotonic(a, (b - 1) as nat);
    }
}

/// `le_bytes` gives as many bytes as it is asked for.
pub proof fn lemma_le_bytes_len(x: nat, n: nat)
    ensures
        le_bytes(x, n).len() == n,
    decreases n,
{
    if n > 0 {
        lemma_le_bytes_len(x / 256, (n - 1) as nat);
    }
}

/// What `n` bytes spell is below 256 to the `n`.
pub proof fn lemma_le_value_bound(s: Seq<u8>)
    ensures
        le_value(s) < pow256(s.len()),
    decreases s.len(),
{
    if s.len() > 0 {
        lemma_le_value_bound(s.drop_first());
    }
}

/// A number below 256 to the `n` is what its `n` bytes spell.
pub proof fn lemma_le_value_of_bytes(x: nat, n: nat)
    requires
        x < pow256(n),
    ensures
        le_value(le_bytes(x, n)) == x,
    decreases n,
{
    if n > 0 {
        let tail = le_bytes(x / 256, (n - 1) as nat);
        lemma_le_value_of_bytes(x / 256, (n - 1) as nat);
        lemma_le_bytes_len(x / 256, (n - 1) as nat);
        assert(le_bytes(x, n).drop_first() =~= tail);
    }
}

/// The spelling of a number is found again at the front of whatever it is
/// followed by.
pub proof fn lemma_le_prefix(x: nat, n: nat, rest: Seq<u8>)
    requires
        x < pow256(n),
    ensures
        (le_bytes(x, n) + rest).len() >= n,
        (le_bytes(x, n) + rest).take(n as int) == le_bytes(x, n),
        (le_bytes(x, n) + rest).skip(n as int) == rest,
        le_value((le_bytes(x, n) + rest).take(n as int)) == x,
{
    lemma_le_bytes_len(x, n);
    lemma_le_value_of_bytes(x, n);
    assert((le_bytes(x, n) + rest).take(n as int) =~= le_bytes(x, n));
    assert((le_bytes(x, n) + rest).skip(n as int) =~= rest);
}

/// Two's complement in `n` bytes loses nothing of a number that fits.
pub proof fn lemma_twos_round_trip(x: int, n: nat)
    requires
        -(pow256(n) as int) <= 2 * x < pow256(n),
    ensures
        twos(x, n) < pow256(n),
        untwos(twos(x, n), n) == x,
{
}

/// Reads up to sixteen bytes as one little-endian number.
pub(crate) fn read_le(bs: &[u8]) -> (v: u128)
    requires
        bs@.len() <= 16,
    ensures
        v == le_value(bs@),
{
    let mut v: u128 = 0;
    let mut i: usize = bs.len();
    proof {
        assert(bs@.skip(i as int) =~= Seq::<u8>::empty());
    }
    while i > 0
        invariant
            i <= bs@.len() <= 16,
            v == le_value(bs@.skip(i as int)),
        decreases i,
    {
        proof {
            lemma_le_value_bound(bs@.skip(i as int));
            lemma_pow256_monotonic((bs@.len() - i) as nat, 15);
            lemma_pow256_values();
            assert(bs@.skip(i - 1).drop_first() =~= bs@.skip(i as int));
        }
        i = i - 1;
        v = v * 256 + bs[i] as u128;
    }
    proof {
        assert(bs@.skip(0) =~= bs@);
    }
    v
}

/// Appends the `n` low bytes of `x`, least significant byte first.
pub(crate) fn write_le(x: u128, n: usize, out: &mut Vec<u8>)
    ensures
        final(out)@ == old(out)@ + le_bytes(x as nat, n as nat),
{
    let mut rem: u128 = x;
    let mut i: usize = 0;
    while i < n
        invariant
            i <= n,
            out@ + le_bytes(rem as nat, (n - i) as nat) == old(out)@ + le_bytes(
                x as nat,
                n as nat,
            ),
        decreases n - i,
    {
        let ghost before = out@;
        out.push((rem % 256) as u8);
        proof {
            assert(before + le_bytes(rem as nat, (n - i) as nat) =~= out@ + le_bytes(
                (rem / 256) as nat,
                (n - i - 1) as nat,
            ));
        }
        rem = rem / 256;
        i = i + 1;
    }
}

} // verus!
