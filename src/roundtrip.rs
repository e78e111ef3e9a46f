//! Transmission-side model of a frame, and the proof that the receive
//! pipeline recovers every frame encoded by it.

use crate::chunk::{chunk_bytes, ones, parity_even, two_to, value_msb_first, CHUNK_BITS};
use crate::frame::decoded;
use crate::pipeline::bytes_of_candidate;
use crate::symbols::{
    candidates, idle_state, keep_long, pieces, run, symbols_of, to_bits, RunState, Symbol,
    MIN_CANDIDATE_LEN,
};
use crate::sync::{sync_run, synced};
use vstd::prelude::*;

verus! {

/// The on/off samples that carry one bit: `1100` for a zero, `111000` for a one.
pub open spec fn pulse(bit: bool) -> Seq<bool> {
    if bit {
        seq![true, true, true, false, false, false]
    } else {
        seq![true, true, false, false]
    }
}

/// The samples that carry a bit sequence.
pub open spec fn pulses(bits: Seq<bool>) -> Seq<bool>
    decreases bits.len(),
{
    if bits.len() == 0 {
        Seq::empty()
    } else {
        pulses(bits.drop_last()) + pulse(bits.last())
    }
}

/// The symbol that carries a bit.
pub open spec fn sym_of(b: bool) -> Symbol {
    if b {
        Symbol::One
    } else {
        Symbol::Zero
    }
}

/// The idle lead-in and sync marker sent before a frame: eight zeros, then a one.
pub open spec fn lead_in() -> Seq<bool> {
    Seq::new(8, |k: int| false).push(true)
}

/// The low `k` bits of `v`, most significant first.
pub open spec fn msb_bits(v: nat, k: nat) -> Seq<bool>
    decreases k,
{
    if k == 0 {
        Seq::empty()
    } else {
        msb_bits(v / 2, (k - 1) as nat).push(v % 2 == 1)
    }
}

/// A byte as sent: eight data bits, most significant first, then a bit that
/// makes the count of set bits even.
pub open spec fn byte_chunk(b: u8) -> Seq<bool> {
    let d = msb_bits(b as nat, 8);
    d.push(ones(d) % 2 == 1)
}

/// The bits that carry a byte sequence.
pub open spec fn frame_bits(bytes: Seq<u8>) -> Seq<bool>
    decreases bytes.len(),
{
    if bytes.len() == 0 {
        Seq::empty()
    } else {
        byte_chunk(bytes[0]) + frame_bits(bytes.skip(1))
    }
}

/// The samples that carry a byte sequence, lead-in included.
pub open spec fn encode_frame(bytes: Seq<u8>) -> Seq<bool> {
    pulses(lead_in() + frame_bits(bytes))
}

proof fn lemma_run_pulses(bits: Seq<bool>)
    ensures
        run(pulses(bits)).0 == idle_state(),
        run(pulses(bits)).1 == bits.map_values(|b: bool| sym_of(b)),
    decreases bits.len(),
{
    if bits.len() > 0 {
        let a = pulses(bits.drop_last());
        lemma_run_pulses(bits.drop_last());
        let out = run(a).1;
        let a1 = a.push(true);
        let a2 = a1.push(true);
        assert(a1.drop_last() =~= a);
        assert(a2.drop_last() =~= a1);
        assert(run(a1) == (RunState { on_run: 1, off_run: 0 }, out));
        assert(run(a2) == (RunState { on_run: 2, off_run: 0 }, out));
        if bits.last() {
            let a3 = a2.push(true);
            let a4 = a3.push(false);
            let a5 = a4.push(false);
            let a6 = a5.push(false);
            assert(a3.drop_last() =~= a2);
            assert(a4.drop_last() =~= a3);
            assert(a5.drop_last() =~= a4);
            assert(a6.drop_last() =~= a5);
            assert(run(a3) == (RunState { on_run: 3, off_run: 0 }, out));
            assert(run(a4) == (RunState { on_run: 3, off_run: 1 }, out));
            assert(run(a5) == (RunState { on_run: 3, off_run: 2 }, out));
            assert(run(a6) == (idle_state(), out.push(Symbol::One)));
            assert(a + pulse(true) =~= a6);
        } else {
            let a3 = a2.push(false);
            let a4 = a3.push(false);
            assert(a3.drop_last() =~= a2);
            assert(a4.drop_last() =~= a3);
            assert(run(a3) == (RunState { on_run: 2, off_run: 1 }, out));
            assert(run(a4) == (idle_state(), out.push(Symbol::Zero)));
            assert(a + pulse(false) =~= a4);
        }
        assert(bits.map_values(|b: bool| sym_of(b)) =~= bits.drop_last().map_values(|b: bool| sym_of(b)).push(
            sym_of(bits.last()),
        ));
    }
}

proof fn lemma_pieces_no_break(syms: Seq<Symbol>)
    requires
        forall|k: int| 0 <= k < syms.len() ==> syms[k] != Symbol::Break,
    ensures
        pieces(syms) == seq![syms],
    decreases syms.len(),
{
    if syms.len() > 0 {
        lemma_pieces_no_break(syms.drop_last());
        assert(syms.drop_last().push(syms.last()) =~= syms);
        assert(pieces(syms) =~= seq![syms]);
    } else {
        assert(syms =~= Seq::<Symbol>::empty());
    }
}

proof fn lemma_sync_zeros(k: nat)
    ensures
        sync_run(Seq::new(k, |j: int| false)) == (k, false, Seq::<bool>::empty()),
    decreases k,
{
    if k > 0 {
        lemma_sync_zeros((k - 1) as nat);
        assert(Seq::new(k, |j: int| false).drop_last() =~= Seq::new((k - 1) as nat, |j: int| false));
    }
}

proof fn lemma_sync_after_lead(r: Seq<bool>)
    ensures
        sync_run(lead_in() + r) == (0nat, true, r),
    decreases r.len(),
{
    if r.len() == 0 {
        lemma_sync_zeros(8);
        assert(lead_in() + r =~= lead_in());
        assert(lead_in().drop_last() =~= Seq::new(8, |j: int| false));
    } else {
        lemma_sync_after_lead(r.drop_last());
        assert((lead_in() + r).drop_last() =~= lead_in() + r.drop_last());
        assert(r.drop_last().push(r.last()) =~= r);
    }
}

proof fn lemma_msb_value(v: nat, k: nat)
    requires
        v < two_to(k),
    ensures
        value_msb_first(msb_bits(v, k)) == v,
        msb_bits(v, k).len() == k,
    decreases k,
{
    if k > 0 {
        lemma_msb_value(v / 2, (k - 1) as nat);
        assert(msb_bits(v, k).drop_last() =~= msb_bits(v / 2, (k - 1) as nat));
    }
}

proof fn lemma_chunk_frame_bits(bytes: Seq<u8>)
    ensures
        chunk_bytes(frame_bits(bytes)) == bytes,
        frame_bits(bytes).len() == CHUNK_BITS * bytes.len(),
    decreases bytes.len(),
{
    if bytes.len() > 0 {
        let rest = bytes.skip(1);
        lemma_chunk_frame_bits(rest);
        let b = bytes[0];
        let d = msb_bits(b as nat, 8);
        let c = byte_chunk(b);
        let fb = frame_bits(bytes);
        reveal_with_fuel(two_to, 9);
        lemma_msb_value(b as nat, 8);
        assert(c.drop_last() =~= d);
        assert(parity_even(c));
        assert(fb.take(CHUNK_BITS as int) =~= c);
        assert(fb.take(8) =~= d);
        assert(fb.skip(CHUNK_BITS as int) =~= frame_bits(rest));
        assert(chunk_bytes(fb) =~= seq![b] + rest);
        assert(seq![b] + rest =~= bytes);
    } else {
        assert(chunk_bytes(frame_bits(bytes)) =~= bytes);
    }
}

/// Round trip: every byte sequence of at least two bytes, sent as an 8-zero
/// lead-in and sync one followed by its bytes with even-parity bits, each bit
/// as `1100` (zero) or `111000` (one), comes back through the classifier as a
/// single candidate frame, through the synchroniser as its bits, and through
/// the chunker as the original bytes; the decoder then reads it as it reads
/// those bytes.
pub proof fn lemma_round_trip(bytes: Seq<u8>)
    requires
        bytes.len() >= 2,
    ensures
        candidates(encode_frame(bytes)) == seq![lead_in() + frame_bits(bytes)],
        synced(lead_in() + frame_bits(bytes)) == frame_bits(bytes),
        bytes_of_candidate(candidates(encode_frame(bytes))[0]) == bytes,
        decoded(bytes_of_candidate(candidates(encode_frame(bytes))[0])) == decoded(bytes),
{
    let bits = lead_in() + frame_bits(bytes);
    lemma_run_pulses(bits);
    let syms = symbols_of(encode_frame(bytes));
    assert(syms == bits.map_values(|b: bool| sym_of(b)));
    lemma_pieces_no_break(syms);
    lemma_chunk_frame_bits(bytes);
    assert(syms.len() > MIN_CANDIDATE_LEN);
    let p = pieces(syms);
    assert(p.drop_last() =~= Seq::<Seq<Symbol>>::empty());
    assert(to_bits(syms) =~= bits);
    assert(keep_long(p.drop_last()) == Seq::<Seq<bool>>::empty());
    assert(p.last() == syms);
    assert(keep_long(p) == Seq::<Seq<bool>>::empty().push(bits));
    assert(keep_long(p) =~= seq![bits]);
    lemma_sync_after_lead(frame_bits(bytes));
}

} // verus!
