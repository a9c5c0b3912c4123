//! Unsigned integers as byte sequences, in either byte order.
use vstd::prelude::*;
use crate::elf::Endianness;

verus! {

/// The lowest `n` bytes of `v`, least significant first. Bytes above the
/// `n`-th are dropped, so this is also the encoding of `v` truncated to
/// `n` bytes.
pub open spec fn le_bytes(v: int, n: nat) -> Seq<u8>
    decreases n,
{
    if n == 0 {
        Seq::empty()
    } else {
        seq![(v % 256) as u8] + le_bytes(v / 256, (n - 1) as nat)
    }
}

/// The lowest `n` bytes of `v` in the byte order `e`.
pub open spec fn uint_bytes(v: int, n: nat, e: Endianness) -> Seq<u8> {
    match e {
        Endianness::Little => le_bytes(v, n),
        Endianness::Big => le_bytes(v, n).reverse(),
    }
}

/// `le_bytes(v, n)` holds `n` bytes.
pub broadcast proof fn lemma_le_bytes_len(v: int, n: nat)
    ensures
        #[trigger] le_bytes(v, n).len() == n,
    decreases n,
{
    if n > 0 {
        lemma_le_bytes_len(v / 256, (n - 1) as nat);
    }
}

/// `uint_bytes(v, n, e)` holds `n` bytes.
pub broadcast proof fn lemma_uint_bytes_len(v: int, n: nat, e: Endianness)
    ensures
        #[trigger] uint_bytes(v, n, e).len() == n,
{
    lemma_le_bytes_len(v, n);
}

/// Decodes `n` bytes, least significant first.
pub open spec fn le_value(s: Seq<u8>) -> int
    decreases s.len(),
{
    if s.len() == 0 {
        0
    } else {
        s[0] + 256 * le_value(s.drop_first())
    }
}

/// Encoding keeps the value modulo `256^n`: decoding the bytes gives back
/// `v` whenever `0 <= v < 256^n`.
pub proof fn lemma_le_bytes_roundtrip(v: int, n: nat)
    requires
        0 <= v,
    ensures
        le_value(le_bytes(v, n)) == v % vstd::arithmetic::power::pow(256, n),
    decreases n,
{
    reveal(vstd::arithmetic::power::pow);
    lemma_le_bytes_len(v, n);
    if n == 0 {
    } else {
        let s = le_bytes(v, n);
        lemma_le_bytes_roundtrip(v / 256, (n - 1) as nat);
        assert(s.drop_first() =~= le_bytes(v / 256, (n - 1) as nat));
        let p = vstd::arithmetic::power::pow(256, (n - 1) as nat);
        vstd::arithmetic::power::lemma_pow_positive(256, (n - 1) as nat);
        assert(vstd::arithmetic::power::pow(256, n) == 256 * p);
        vstd::arithmetic::div_mod::lemma_breakdown(v, 256, p);
    }
}

/// The `n` lowest bytes of `v` in byte order `e`.
pub fn encode_uint(v: u64, n: usize, e: Endianness) -> (r: Vec<u8>)
    requires
        n <= 8,
    ensures
        r@ == uint_bytes(v as int, n as nat, e),
{
    let mut le: Vec<u8> = Vec::new();
    let mut x: u64 = v;
    let mut i: usize = 0;
    assert(le@ + le_bytes(v as int, n as nat) =~= le_bytes(v as int, n as nat));
    while i < n
        invariant
            i <= n,
            le@ + le_bytes(x as int, (n - i) as nat) == le_bytes(v as int, n as nat),
        decreases n - i,
    {
        let b: u8 = (x % 256) as u8;
        let ghost rest = le_bytes(x as int / 256, (n - i - 1) as nat);
        assert(le_bytes(x as int, (n - i) as nat) == seq![b] + rest);
        assert(le@ + (seq![b] + rest) =~= le@.push(b) + rest);
        le.push(b);
        x = x / 256;
        i = i + 1;
    }
    assert(le_bytes(x as int, 0) =~= Seq::<u8>::empty());
    assert(le@ =~= le_bytes(v as int, n as nat));
    proof {
        lemma_le_bytes_len(v as int, n as nat);
    }
    match e {
        Endianness::Little => le,
        Endianness::Big => {
            let mut be: Vec<u8> = Vec::new();
            let mut j: usize = 0;
            while j < n
                invariant
                    j <= n,
                    le@.len() == n,
                    be@ =~= le@.reverse().take(j as int),
                decreases n - j,
            {
                be.push(le[n - 1 - j]);
                j = j + 1;
                assert(be@ =~= le@.reverse().take(j as int));
            }
            assert(le@.reverse().take(n as int) =~= le@.reverse());
            be
        },
    }
}

} // verus!
