//! Properties of the decoder that relate several inputs or several stages.

use crate::chunk::{chunk_bytes, ones, parity_even, CHUNK_BITS};
use crate::frame::{checksum_of, command_of, decoded, frame_len, MIN_FRAME_BYTES};
use crate::symbols::{candidates, keep_long, pieces, run, symbols_of};
use vstd::prelude::*;

verus! {

/// The index of the checksum byte of a frame.
pub open spec fn checksum_index(bytes: Seq<u8>) -> int {
    frame_len(bytes[3]) - 1
}

/// For a frame with a known command, decoding succeeds exactly when the
/// checksum byte equals the checksum of the bytes before it, and changing the
/// checksum byte alone of a frame that decodes makes it fail.
pub proof fn lemma_checksum_decides(bytes: Seq<u8>, v: u8)
    requires
        bytes.len() >= MIN_FRAME_BYTES,
        command_of(bytes).is_some(),
    ensures
        decoded(bytes).is_some() <==> bytes[checksum_index(bytes)] == checksum_of(
            bytes.take(checksum_index(bytes)),
        ),
        decoded(bytes).is_some() && v != bytes[checksum_index(bytes)] ==> decoded(
            bytes.update(checksum_index(bytes), v),
        ).is_none(),
{
    let k = checksum_index(bytes);
    let b2 = bytes.update(k, v);
    assert(b2.take(k) =~= bytes.take(k));
    assert(b2[3] == bytes[3]);
    assert(checksum_index(b2) == k);
    assert(command_of(b2).is_some());
    assert(b2.len() == bytes.len());
    assert(b2[k] == v);
    assert(crate::frame::checksum_ok(b2) == (v == checksum_of(bytes.take(k))));
    assert(decoded(b2).is_some() == crate::frame::checksum_ok(b2));
    assert(decoded(bytes).is_some() == crate::frame::checksum_ok(bytes));
}

/// `s` with the bit at `i` inverted.
pub open spec fn flip(s: Seq<bool>, i: int) -> Seq<bool> {
    s.update(i, !s[i])
}

/// The 9-bit chunk that holds bit `i`.
pub open spec fn chunk_at(s: Seq<bool>, i: int) -> Seq<bool> {
    s.subrange(CHUNK_BITS * (i / CHUNK_BITS as int), CHUNK_BITS * (i / CHUNK_BITS as int) + CHUNK_BITS)
}

proof fn lemma_ones_update(s: Seq<bool>, k: int, b: bool)
    requires
        0 <= k < s.len(),
    ensures
        ones(s.update(k, b)) + (if s[k] { 1int } else { 0int }) == ones(s) + (if b { 1int } else { 0int }),
    decreases s.len(),
{
    let u = s.update(k, b);
    if k == s.len() - 1 {
        assert(u.drop_last() =~= s.drop_last());
    } else {
        assert(u.drop_last() =~= s.drop_last().update(k, b));
        lemma_ones_update(s.drop_last(), k, b);
    }
}

/// Flipping any single bit of a complete 9-bit chunk changes whether that
/// chunk passes parity.
pub proof fn lemma_flip_changes_parity(bits: Seq<bool>, i: int)
    requires
        0 <= i,
        CHUNK_BITS * (i / CHUNK_BITS as int) + CHUNK_BITS <= bits.len(),
    ensures
        parity_even(chunk_at(flip(bits, i), i)) != parity_even(chunk_at(bits, i)),
{
    let start = CHUNK_BITS * (i / CHUNK_BITS as int);
    let c = chunk_at(bits, i);
    assert(chunk_at(flip(bits, i), i) =~= c.update(i - start, !c[i - start]));
    lemma_ones_update(c, i - start, !c[i - start]);
}

proof fn lemma_chunk_bytes_len(bits: Seq<bool>)
    ensures
        CHUNK_BITS * chunk_bytes(bits).len() <= bits.len(),
    decreases bits.len(),
{
    if bits.len() >= CHUNK_BITS && parity_even(bits.take(CHUNK_BITS as int)) {
        lemma_chunk_bytes_len(bits.skip(CHUNK_BITS as int));
    }
}

/// Flipping a bit inside a chunk that was accepted cuts the bytes off just
/// before that chunk: it is rejected and the chunks before it are unchanged.
pub proof fn lemma_flip_truncates(bits: Seq<bool>, i: int)
    requires
        0 <= i,
        chunk_bytes(bits).len() > i / CHUNK_BITS as int,
    ensures
        chunk_bytes(flip(bits, i)) == chunk_bytes(bits).take(i / CHUNK_BITS as int),
    decreases i,
{
    let f = flip(bits, i);
    lemma_chunk_bytes_len(bits);
    assert(i < bits.len());
    if i < CHUNK_BITS {
        assert(bits.len() >= CHUNK_BITS);
        lemma_flip_changes_parity(bits, i);
        assert(chunk_at(bits, i) =~= bits.take(CHUNK_BITS as int));
        assert(chunk_at(f, i) =~= f.take(CHUNK_BITS as int));
        assert(chunk_bytes(bits).take(0) =~= Seq::<u8>::empty());
    } else {
        let rest = bits.skip(CHUNK_BITS as int);
        assert(f.take(CHUNK_BITS as int) =~= bits.take(CHUNK_BITS as int));
        assert(f.take(8) =~= bits.take(8));
        assert(f.skip(CHUNK_BITS as int) =~= flip(rest, i - CHUNK_BITS));
        assert((i - CHUNK_BITS) / CHUNK_BITS as int == i / CHUNK_BITS as int - 1);
        lemma_flip_truncates(rest, i - CHUNK_BITS);
        assert(chunk_bytes(bits) == seq![chunk_bytes(bits)[0]] + chunk_bytes(rest));
        assert(chunk_bytes(f) =~= chunk_bytes(bits).take(i / CHUNK_BITS as int));
    }
}

proof fn lemma_silence_run(samples: Seq<bool>)
    requires
        forall|k: int| 0 <= k < samples.len() ==> !samples[k],
    ensures
        run(samples).0.on_run == 0,
        run(samples).1 == Seq::<crate::symbols::Symbol>::empty(),
    decreases samples.len(),
{
    if samples.len() > 0 {
        lemma_silence_run(samples.drop_last());
    }
}

/// A sample stream without a single "on" sample yields no candidate frame.
pub proof fn lemma_silence_no_candidates(samples: Seq<bool>)
    requires
        forall|k: int| 0 <= k < samples.len() ==> !samples[k],
    ensures
        candidates(samples) == Seq::<Seq<bool>>::empty(),
{
    lemma_silence_run(samples);
    let p = pieces(symbols_of(samples));
    assert(symbols_of(samples).len() == 0);
    assert(p == seq![Seq::<crate::symbols::Symbol>::empty()]);
    assert(p.drop_last() =~= Seq::<Seq<crate::symbols::Symbol>>::empty());
    assert(keep_long(p.drop_last()) == Seq::<Seq<bool>>::empty());
    assert(p.last().len() == 0);
}

} // verus!
