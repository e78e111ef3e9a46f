//! Symbol classification: on/off sample runs become `Zero`, `One` or `Break`
//! symbols, and the symbol stream is split at breaks into candidate frames.

use crate::bits::{bits_get, bits_len, bits_new, bits_of, bits_push, max_bits, Bits};
use vstd::prelude::*;

verus! {

/// The longest "on" run the classifier counts; one more "on" sample is a break.
pub const MAX_ON_RUN: u8 = 4;

/// A run of symbols must be longer than this to be kept as a candidate frame.
pub const MIN_CANDIDATE_LEN: usize = 24;

/// One classified run of samples.
#[derive(Clone, Copy, Debug, PartialEq, Eq, Structural)]
pub enum Symbol {
    Zero,
    One,
    Break,
}

/// The classifier's counters: length of the current "on" run and of the
/// "off" run that follows it.
#[derive(Clone, Copy, Debug, PartialEq, Eq, Structural)]
pub struct RunState {
    pub on_run: u8,
    pub off_run: u8,
}

impl RunState {
    /// The counters stay within the ranges the classifier uses.
    pub open spec fn wf(self) -> bool {
        self.on_run <= MAX_ON_RUN && self.off_run <= 2
    }

    /// The state before any sample is seen.
    pub fn idle() -> (r: RunState)
        ensures
            r == idle_state(),
            r.wf(),
    {
        RunState { on_run: 0, off_run: 0 }
    }
}

/// The state before any sample, and after each emitted `Zero` or `One`.
pub open spec fn idle_state() -> RunState {
    RunState { on_run: 0, off_run: 0 }
}

/// The transition on one sample: the next state and the symbol emitted, if any.
pub open spec fn step(s: RunState, sample: bool) -> (RunState, Option<Symbol>) {
    if sample {
        if s.on_run == MAX_ON_RUN {
            (RunState { on_run: MAX_ON_RUN, off_run: 0 }, Some(Symbol::Break))
        } else {
            (RunState { on_run: (s.on_run + 1) as u8, off_run: 0 }, None)
        }
    } else if s.on_run == 0 {
        (RunState { on_run: 0, off_run: 1 }, None)
    } else if s.off_run == 1 && (s.on_run == 2 || s.on_run == 4) {
        (idle_state(), Some(Symbol::Zero))
    } else if s.off_run == 2 {
        (idle_state(), Some(Symbol::One))
    } else {
        (RunState { on_run: s.on_run, off_run: (s.off_run + 1) as u8 }, None)
    }
}

/// The state reached and the symbols emitted after feeding `samples`, left to
/// right, from the idle state.
pub open spec fn run(samples: Seq<bool>) -> (RunState, Seq<Symbol>)
    decreases samples.len(),
{
    if samples.len() == 0 {
        (idle_state(), Seq::empty())
    } else {
        let (s, out) = run(samples.drop_last());
        let (s2, e) = step(s, samples.last());
        match e {
            Some(x) => (s2, out.push(x)),
            None => (s2, out),
        }
    }
}

/// The symbols emitted for `samples`.
pub open spec fn symbols_of(samples: Seq<bool>) -> Seq<Symbol> {
    run(samples).1
}

/// The stream split at every `Break`: the runs between breaks, in order,
/// empty runs included, breaks dropped.
pub open spec fn pieces(syms: Seq<Symbol>) -> Seq<Seq<Symbol>>
    decreases syms.len(),
{
    if syms.len() == 0 {
        seq![Seq::empty()]
    } else {
        let p = pieces(syms.drop_last());
        if syms.last() == Symbol::Break {
            p.push(Seq::empty())
        } else {
            p.update(p.len() - 1, p.last().push(syms.last()))
        }
    }
}

/// A run of `Zero`/`One` symbols read as bits.
pub open spec fn to_bits(piece: Seq<Symbol>) -> Seq<bool> {
    piece.map_values(|s: Symbol| s == Symbol::One)
}

/// The runs longer than `MIN_CANDIDATE_LEN`, as bits, in order.
pub open spec fn keep_long(ps: Seq<Seq<Symbol>>) -> Seq<Seq<bool>>
    decreases ps.len(),
{
    if ps.len() == 0 {
        Seq::empty()
    } else {
        let k = keep_long(ps.drop_last());
        if ps.last().len() > MIN_CANDIDATE_LEN {
            k.push(to_bits(ps.last()))
        } else {
            k
        }
    }
}

/// The candidate frames recovered from a sample stream.
pub open spec fn candidates(samples: Seq<bool>) -> Seq<Seq<bool>> {
    keep_long(pieces(symbols_of(samples)))
}

/// Splitting always yields at least one run.
pub proof fn lemma_pieces_nonempty(syms: Seq<Symbol>)
    ensures
        pieces(syms).len() >= 1,
    decreases syms.len(),
{
    if syms.len() > 0 {
        lemma_pieces_nonempty(syms.drop_last());
    }
}

/// Every kept candidate is longer than `MIN_CANDIDATE_LEN`.
pub proof fn lemma_keep_long_len(ps: Seq<Seq<Symbol>>)
    ensures
        forall|j: int| 0 <= j < keep_long(ps).len() ==> #[trigger] keep_long(ps)[j].len() > MIN_CANDIDATE_LEN,
    decreases ps.len(),
{
    if ps.len() > 0 {
        let k = keep_long(ps.drop_last());
        lemma_keep_long_len(ps.drop_last());
        assert forall|j: int| 0 <= j < keep_long(ps).len() implies #[trigger] keep_long(ps)[j].len()
            > MIN_CANDIDATE_LEN by {
            if j < k.len() {
                assert(keep_long(ps)[j] == k[j]);
            }
        }
    }
}

/// Feeds one sample to the classifier.
pub fn classify_sample(state: RunState, sample: bool) -> (r: (RunState, Option<Symbol>))
    requires
        state.wf(),
    ensures
        r == step(state, sample),
        r.0.wf(),
{
    if sample {
        if state.on_run == MAX_ON_RUN {
            (RunState { on_run: MAX_ON_RUN, off_run: 0 }, Some(Symbol::Break))
        } else {
            (RunState { on_run: state.on_run + 1, off_run: 0 }, None)
        }
    } else if state.on_run == 0 {
        (RunState { on_run: 0, off_run: 1 }, None)
    } else if state.off_run == 1 && (state.on_run == 2 || state.on_run == 4) {
        (RunState::idle(), Some(Symbol::Zero))
    } else if state.off_run == 2 {
        (RunState::idle(), Some(Symbol::One))
    } else {
        (RunState { on_run: state.on_run, off_run: state.off_run + 1 }, None)
    }
}

/// Classifies a sample stream and returns its candidate frames, in the order
/// they appear: the runs of symbols between breaks that are longer than
/// `MIN_CANDIDATE_LEN`, read as bits.
pub fn on_offs_to_bits(on_offs: Bits) -> (r: Vec<Bits>)
    ensures
        r@.len() == candidates(bits_of(on_offs)).len(),
        forall|j: int| 0 <= j < r@.len() ==> bits_of(#[trigger] r@[j]) == candidates(bits_of(on_offs))[j],
        forall|j: int| 0 <= j < r@.len() ==> bits_of(#[trigger] r@[j]).len() > MIN_CANDIDATE_LEN,
{
    let ghost samples = bits_of(on_offs);
    let n = bits_len(&on_offs);
    let mut result: Vec<Bits> = Vec::new();
    let mut cur = bits_new();
    let mut cur_len: usize = 0;
    let mut state = RunState::idle();
    let mut i: usize = 0;
    proof {
        assert(samples.take(0) =~= Seq::<bool>::empty());
    }
    while i < n
        invariant
            i <= n,
            n as nat == samples.len(),
            n as nat <= max_bits(),
            samples == bits_of(on_offs),
            state.wf(),
            state == run(samples.take(i as int)).0,
            pieces(symbols_of(samples.take(i as int))).len() >= 1,
            result@.len() == keep_long(pieces(symbols_of(samples.take(i as int))).drop_last()).len(),
            forall|j: int| 0 <= j < result@.len() ==> bits_of(#[trigger] result@[j])
                == keep_long(pieces(symbols_of(samples.take(i as int))).drop_last())[j],
            bits_of(cur) == to_bits(pieces(symbols_of(samples.take(i as int))).last()),
            cur_len as nat == bits_of(cur).len(),
            cur_len <= i,
        decreases n - i,
    {
        let ghost prev = samples.take(i as int);
        let ghost p = pieces(symbols_of(prev));
        let sample = bits_get(&on_offs, i);
        let (next, emitted) = classify_sample(state, sample);
        let ghost syms = symbols_of(prev);
        proof {
            assert(samples.take(i + 1).drop_last() =~= prev);
            assert(samples.take(i + 1).last() == sample);
            match emitted {
                Some(x) => {
                    assert(symbols_of(samples.take(i + 1)) == syms.push(x));
                    assert(syms.push(x).drop_last() =~= syms);
                    lemma_pieces_nonempty(syms.push(x));
                },
                None => {
                    assert(symbols_of(samples.take(i + 1)) == syms);
                },
            }
        }
        match emitted {
            Some(Symbol::Break) => {
                proof {
                    assert(p.push(Seq::empty()).drop_last() =~= p);
                    assert(p =~= p.drop_last().push(p.last()));
                }
                if cur_len > MIN_CANDIDATE_LEN {
                    result.push(cur);
                } else {
                }
                cur = bits_new();
                cur_len = 0;
                proof {
                    assert(to_bits(Seq::<Symbol>::empty()) =~= Seq::<bool>::empty());
                }
            },
            Some(x) => {
                proof {
                    let q = p.update(p.len() - 1, p.last().push(x));
                    assert(q.drop_last() =~= p.drop_last());
                    assert(to_bits(p.last().push(x)) =~= to_bits(p.last()).push(x == Symbol::One));
                }
                bits_push(&mut cur, x == Symbol::One);
                cur_len = cur_len + 1;
            },
            None => {},
        }
        state = next;
        i = i + 1;
    }
    proof {
        let p = pieces(symbols_of(samples.take(i as int)));
        assert(samples.take(i as int) =~= samples);
        assert(p =~= p.drop_last().push(p.last()));
    }
    if cur_len > MIN_CANDIDATE_LEN {
        result.push(cur);
    }
    proof {
        let c = candidates(samples);
        lemma_keep_long_len(pieces(symbols_of(samples)));
        assert forall|j: int| 0 <= j < result@.len() implies bits_of(#[trigger] result@[j]).len()
            > MIN_CANDIDATE_LEN by {
            assert(bits_of(result@[j]) == c[j]);
        }
    }
    result
}

} // verus!
