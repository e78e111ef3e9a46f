//! Frame synchronisation: drops the lead-in of a candidate frame up to and
//! including the first one-bit that follows at least two zero-bits.

use crate::bits::{bits_get, bits_len, bits_new, bits_of, bits_push, Bits};
use vstd::prelude::*;

verus! {

/// Zero-bits that must precede the one-bit marking the start of a frame.
pub const SYNC_ZEROS: usize = 2;

/// The synchroniser after reading `bits`: the count of zeros since the last
/// one-bit while unlocked, whether it has locked, and the bits emitted.
pub open spec fn sync_run(bits: Seq<bool>) -> (nat, bool, Seq<bool>)
    decreases bits.len(),
{
    if bits.len() == 0 {
        (0, false, Seq::empty())
    } else {
        let (zeros, locked, out) = sync_run(bits.drop_last());
        let b = bits.last();
        if locked {
            (0, true, out.push(b))
        } else if !b {
            (zeros + 1, false, out)
        } else if zeros >= SYNC_ZEROS {
            (0, true, out)
        } else {
            (0, false, out)
        }
    }
}

/// The bits of a candidate frame that follow its sync marker.
pub open spec fn synced(bits: Seq<bool>) -> Seq<bool> {
    sync_run(bits).2
}

/// Returns the bits after the first one-bit that follows two or more
/// zero-bits; empty where there is no such one-bit.
pub fn sync_bits(bits: Bits) -> (r: Bits)
    ensures
        bits_of(r) == synced(bits_of(bits)),
{
    let ghost b = bits_of(bits);
    let n = bits_len(&bits);
    let mut out = bits_new();
    let mut zeros: usize = 0;
    let mut locked = false;
    let mut i: usize = 0;
    while i < n
        invariant
            i <= n,
            n as nat == b.len(),
            n as nat <= crate::bits::max_bits(),
            b == bits_of(bits),
            zeros as nat == sync_run(b.take(i as int)).0,
            locked == sync_run(b.take(i as int)).1,
            bits_of(out) == sync_run(b.take(i as int)).2,
            zeros <= i,
            bits_of(out).len() <= i,
        decreases n - i,
    {
        proof {
            assert(b.take(i + 1).drop_last() =~= b.take(i as int));
        }
        let bit = bits_get(&bits, i);
        if locked {
            bits_push(&mut out, bit);
            zeros = 0;
        } else if !bit {
            zeros = zeros + 1;
        } else if zeros >= SYNC_ZEROS {
            zeros = 0;
            locked = true;
        } else {
            zeros = 0;
        }
        i = i + 1;
    }
    proof {
        assert(b.take(i as int) =~= b);
    }
    out
}

} // verus!
