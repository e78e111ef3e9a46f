//! The four stages run over one packet's samples.

use crate::bits::{bits_of, Bits};
use crate::chunk::{chunk_bytes, chunk_into_bytes};
use crate::frame::{decode_bytes_as_signal, decoded, FHTSignal};
use crate::symbols::{candidates, on_offs_to_bits};
use crate::sync::{sync_bits, synced};
use vstd::prelude::*;

verus! {

/// What became of one candidate frame: its bits, its synchronised bits, the
/// bytes chunked from them, and the decoded frame if there is one.
pub struct CandidateDecode {
    pub candidate: Vec<bool>,
    pub synced: Vec<bool>,
    pub bytes: Vec<u8>,
    pub signal: Option<FHTSignal>,
}

/// The bytes recovered from a candidate frame.
pub open spec fn bytes_of_candidate(cand: Seq<bool>) -> Seq<u8> {
    chunk_bytes(synced(cand))
}

/// Decodes every candidate frame of a packet's samples, in order.
pub fn decode_samples(samples: Bits) -> (r: Vec<CandidateDecode>)
    ensures
        r@.len() == candidates(bits_of(samples)).len(),
        forall|j: int|
            0 <= j < r@.len() ==> {
                let c = candidates(bits_of(samples))[j];
                &&& (#[trigger] r@[j]).candidate@ == c
                &&& r@[j].synced@ == synced(c)
                &&& r@[j].bytes@ == bytes_of_candidate(c)
                &&& r@[j].signal == decoded(bytes_of_candidate(c))
            },
{
    let ghost cs = candidates(bits_of(samples));
    let mut cands = on_offs_to_bits(samples);
    let ghost orig = cands@;
    let n = cands.len();
    let mut out: Vec<CandidateDecode> = Vec::new();
    let mut i: usize = 0;
    while i < n
        invariant
            i <= n,
            n == orig.len(),
            orig.len() == cs.len(),
            forall|j: int| 0 <= j < orig.len() ==> bits_of(#[trigger] orig[j]) == cs[j],
            cands@ == orig.skip(i as int),
            out@.len() == i,
            forall|j: int|
                0 <= j < i ==> {
                    let c = cs[j];
                    &&& (#[trigger] out@[j]).candidate@ == c
                    &&& out@[j].synced@ == synced(c)
                    &&& out@[j].bytes@ == bytes_of_candidate(c)
                    &&& out@[j].signal == decoded(bytes_of_candidate(c))
                },
        decreases n - i,
    {
        let cand = cands.remove(0);
        proof {
            assert(cands@ =~= orig.skip(i + 1));
        }
        let candidate = cand.to_bools();
        let s = sync_bits(cand);
        let synced_bits = s.to_bools();
        let bytes = chunk_into_bytes(s);
        let signal = decode_bytes_as_signal(bytes.clone());
        out.push(CandidateDecode { candidate, synced: synced_bits, bytes, signal });
        i = i + 1;
    }
    out
}

} // verus!
