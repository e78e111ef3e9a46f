//! Byte chunking: 9-bit groups, each eight data bits (most significant first)
//! and an even-parity bit, read until the first group that fails parity.

use crate::bits::{bits_get, bits_len, bits_of, Bits};
use vstd::prelude::*;

verus! {

/// Bits in one transmitted byte: eight data bits and a parity bit.
pub const CHUNK_BITS: usize = 9;

/// The number of set bits.
pub open spec fn ones(s: Seq<bool>) -> nat
    decreases s.len(),
{
    if s.len() == 0 {
        0
    } else {
        ones(s.drop_last()) + if s.last() { 1nat } else { 0nat }
    }
}

/// The bits read as an unsigned number, most significant first.
pub open spec fn value_msb_first(s: Seq<bool>) -> nat
    decreases s.len(),
{
    if s.len() == 0 {
        0
    } else {
        2 * value_msb_first(s.drop_last()) + if s.last() { 1nat } else { 0nat }
    }
}

/// Two to the power `k`.
pub open spec fn two_to(k: nat) -> nat
    decreases k,
{
    if k == 0 {
        1
    } else {
        2 * two_to((k - 1) as nat)
    }
}

/// A chunk passes when its count of set bits is even.
pub open spec fn parity_even(chunk: Seq<bool>) -> bool {
    ones(chunk) % 2 == 0
}

/// The bytes of the leading 9-bit chunks that pass parity, up to the first
/// that fails or the end of the complete chunks.
pub open spec fn chunk_bytes(bits: Seq<bool>) -> Seq<u8>
    decreases bits.len(),
{
    if bits.len() < CHUNK_BITS || !parity_even(bits.take(CHUNK_BITS as int)) {
        Seq::empty()
    } else {
        seq![value_msb_first(bits.take(8)) as u8] + chunk_bytes(bits.skip(CHUNK_BITS as int))
    }
}

/// Reads eight bits from `start`, most significant first.
pub fn load_byte(bits: &Bits, start: usize) -> (r: u8)
    requires
        start + 8 <= bits_of(*bits).len(),
    ensures
        r as nat == value_msb_first(bits_of(*bits).subrange(start as int, start + 8)),
{
    let ghost b = bits_of(*bits);
    let _ = bits_len(bits);
    let mut v: u32 = 0;
    let mut k: usize = 0;
    while k < 8
        invariant
            k <= 8,
            start + 8 <= b.len(),
            b.len() <= crate::bits::max_bits(),
            b == bits_of(*bits),
            v as nat == value_msb_first(b.subrange(start as int, start + k)),
            (v as nat) < two_to(k as nat),
        decreases 8 - k,
    {
        proof {
            assert(b.subrange(start as int, start + k + 1).drop_last() =~= b.subrange(start as int, start + k));
            assert(two_to((k + 1) as nat) == 2 * two_to(k as nat));
            reveal_with_fuel(two_to, 9);
            assert(two_to((k + 1) as nat) <= 256) by {
                assert(k == 0 || k == 1 || k == 2 || k == 3 || k == 4 || k == 5 || k == 6 || k == 7);
            }
        }
        let bit = bits_get(bits, start + k);
        v = 2 * v + if bit { 1u32 } else { 0u32 };
        k = k + 1;
    }
    proof {
        reveal_with_fuel(two_to, 9);
        assert(two_to(8) == 256);
    }
    v as u8
}

/// Whether the nine bits from `start` hold an even number of set bits.
pub fn chunk_parity_even(bits: &Bits, start: usize) -> (r: bool)
    requires
        start + CHUNK_BITS <= bits_of(*bits).len(),
    ensures
        r == parity_even(bits_of(*bits).subrange(start as int, start + CHUNK_BITS)),
{
    let ghost b = bits_of(*bits);
    let _ = bits_len(bits);
    let mut count: usize = 0;
    let mut k: usize = 0;
    while k < CHUNK_BITS
        invariant
            k <= CHUNK_BITS,
            start + CHUNK_BITS <= b.len(),
            b.len() <= crate::bits::max_bits(),
            b == bits_of(*bits),
            count as nat == ones(b.subrange(start as int, start + k)),
            count <= k,
        decreases CHUNK_BITS - k,
    {
        proof {
            assert(b.subrange(start as int, start + k + 1).drop_last() =~= b.subrange(start as int, start + k));
        }
        if bits_get(bits, start + k) {
            count = count + 1;
        }
        k = k + 1;
    }
    count % 2 == 0
}

/// Splits the bits into 9-bit chunks and returns the data byte of each
/// leading chunk with even parity, stopping at the first that fails; an
/// incomplete final chunk is dropped.
pub fn chunk_into_bytes(bits: Bits) -> (r: Vec<u8>)
    ensures
        r@ == chunk_bytes(bits_of(bits)),
{
    let ghost b = bits_of(bits);
    let n = bits_len(&bits);
    let mut out: Vec<u8> = Vec::new();
    let mut pos: usize = 0;
    let mut stopped = false;
    proof {
        assert(b.skip(0) =~= b);
        assert(out@ + chunk_bytes(b) =~= chunk_bytes(b));
    }
    while !stopped && n - pos >= CHUNK_BITS
        invariant
            pos <= n,
            n as nat == b.len(),
            b == bits_of(bits),
            out@ + chunk_bytes(b.skip(pos as int)) == chunk_bytes(b),
            stopped ==> chunk_bytes(b.skip(pos as int)) == Seq::<u8>::empty(),
        decreases n - pos, if stopped { 0int } else { 1int },
    {
        let ghost rest = b.skip(pos as int);
        proof {
            assert(rest.take(CHUNK_BITS as int) =~= b.subrange(pos as int, pos + CHUNK_BITS));
            assert(rest.take(8) =~= b.subrange(pos as int, pos + 8));
            assert(rest.skip(CHUNK_BITS as int) =~= b.skip(pos + CHUNK_BITS));
        }
        if chunk_parity_even(&bits, pos) {
            let byte = load_byte(&bits, pos);
            proof {
                assert(out@.push(byte) + chunk_bytes(b.skip(pos + CHUNK_BITS)) =~= out@ + chunk_bytes(rest));
            }
            out.push(byte);
            pos = pos + CHUNK_BITS;
        } else {
            stopped = true;
        }
    }
    proof {
        assert(out@ + Seq::<u8>::empty() =~= out@);
    }
    out
}

} // verus!
