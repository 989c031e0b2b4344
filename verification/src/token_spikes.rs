//! Turning a sentence into spikes: each known word fires its neuron a number
//! of times, the spikes delayed by the word's position plus a random jitter.
//!
//! Word `pos` has base delay `1 + pos * window` (16-bit); each of its spikes
//! adds a jitter drawn from `0..=jitter` (skewed toward 0), saturating at
//! `u16::MAX`.

use vstd::prelude::*;
use crate::substrate::{NeuronIdx, SpikeEvent};
use crate::random::random_u64;

verus! {

/// The base delay of the word at `pos`: `1 + pos * window`, with position and
/// window taken modulo 2^16.
pub open spec fn base_delay(pos: int, window: usize) -> int {
    1 + (pos % 0x10000) * ((window as int) % 0x10000)
}

/// The jitter a random draw gives, for jitter range `jr >= 1`: the draw's low
/// 16 bits modulo `2*jr + 1`, less `jr`, floored at 0.
pub open spec fn jitter_of(draw: u64, jr: int) -> int {
    let r = ((draw as int) % 0x10000) % (2 * jr + 1);
    if r >= jr { r - jr } else { 0 }
}

/// The jitter range of a jitter setting: at least 1.
pub open spec fn jitter_range(jitter: u16) -> int {
    if jitter == 0 { 1 } else { jitter as int }
}

/// The spike of neuron `n` for the word at `pos` with random draw `draw`.
pub open spec fn word_spike(n: usize, pos: int, window: usize, jitter: u16, draw: u64) -> SpikeEvent {
    let d = base_delay(pos, window) + jitter_of(draw, jitter_range(jitter));
    SpikeEvent {
        src: NeuronIdx(n),
        dst: NeuronIdx(n),
        delay_ticks: if d > 0xFFFF { 0xFFFFu16 } else { d as u16 },
        amplitude_u8: 255,
        flags: 0,
    }
}

/// A word's spike comes at its base delay plus a jitter of 0 to the jitter
/// range (1 for a setting of 0), capped at 65535 ticks; it runs from the
/// word's neuron to itself at full amplitude with no flags.
pub proof fn lemma_word_spike_bounds(n: usize, pos: int, window: usize, jitter: u16, draw: u64)
    ensures
        ({
            let e = word_spike(n, pos, window, jitter, draw);
            let b = 1 + (pos % 0x10000) * ((window as int) % 0x10000);
            let jr = if jitter == 0 { 1 } else { jitter as int };
            &&& e.src == NeuronIdx(n) && e.dst == NeuronIdx(n)
            &&& e.amplitude_u8 == 255 && e.flags == 0
            &&& b + jr <= 0xFFFF ==> b <= e.delay_ticks <= b + jr
            &&& b > 0xFFFF ==> e.delay_ticks == 0xFFFF
        }),
{
    let jr = jitter_range(jitter);
    let r = ((draw as int) % 0x10000) % (2 * jr + 1);
    assert(0 <= r < 2 * jr + 1);
    assert(0 <= pos % 0x10000 && 0 <= (window as int) % 0x10000);
    assert((pos % 0x10000) * ((window as int) % 0x10000) >= 0) by (nonlinear_arith)
        requires 0 <= pos % 0x10000, 0 <= (window as int) % 0x10000;
}

/// The spikes of the first `upto` words, word `p` using the draws `draws[p]`
/// (one per spike); unknown words (`None`) give none.
pub open spec fn sentence_spikes_spec(
    neurons: Seq<Option<usize>>,
    window: usize,
    jitter: u16,
    draws: Seq<Seq<u64>>,
    upto: int,
) -> Seq<SpikeEvent>
    decreases upto,
{
    if upto <= 0 {
        Seq::empty()
    } else {
        let p = upto - 1;
        sentence_spikes_spec(neurons, window, jitter, draws, p) + match neurons[p] {
            Some(n) => draws[p].map_values(|d: u64| word_spike(n, p, window, jitter, d)),
            None => Seq::<SpikeEvent>::empty(),
        }
    }
}

/// The draws fit the sentence: one sequence per word, as long as the word's
/// rate when the word is known and empty otherwise.
pub open spec fn draws_fit(neurons: Seq<Option<usize>>, rates: Seq<u16>, draws: Seq<Seq<u64>>) -> bool {
    &&& draws.len() == neurons.len()
    &&& forall|p: int| 0 <= p < neurons.len() ==>
        (#[trigger] draws[p]).len() == (if neurons[p] is Some { rates[p] as int } else { 0 })
}

/// The base delays of the known words fit in 16 bits, and the jitter range
/// in 15 bits.
pub open spec fn delays_fit(neurons: Seq<Option<usize>>, window: usize, jitter: u16) -> bool {
    &&& jitter <= 0x7FFF
    &&& forall|p: int| 0 <= p < neurons.len() && #[trigger] neurons[p] is Some ==> base_delay(p, window) <= 0xFFFF
}

/// The spikes of one word, one per draw.
pub fn word_spikes(n: usize, pos: usize, window: usize, jitter: u16, draws: &[u64]) -> (out: Vec<SpikeEvent>)
    requires
        jitter <= 0x7FFF,
        base_delay(pos as int, window) <= 0xFFFF,
    ensures
        out@ == draws@.map_values(|d: u64| word_spike(n, pos as int, window, jitter, d)),
{
    let jr: u16 = if jitter == 0 { 1 } else { jitter };
    let p16 = (pos % 0x10000) as u16;
    let w16 = (window % 0x10000) as u16;
    assert(p16 as int * w16 as int <= 0xFFFE);
    let base: u16 = 1 + p16 * w16;
    let mut out: Vec<SpikeEvent> = Vec::new();
    let mut k: usize = 0;
    while k < draws.len()
        invariant
            jr as int == jitter_range(jitter),
            1 <= jr <= 0x7FFF,
            base as int == base_delay(pos as int, window),
            0 <= k <= draws@.len(),
            out@ == draws@.subrange(0, k as int).map_values(|d: u64| word_spike(n, pos as int, window, jitter, d)),
        decreases draws@.len() - k,
    {
        let r = (draws[k] % 0x10000) as u16;
        let m = r % (2 * jr + 1);
        let j = m.saturating_sub(jr);
        let delay = base.saturating_add(j);
        let spike = SpikeEvent { src: NeuronIdx(n), dst: NeuronIdx(n), delay_ticks: delay, amplitude_u8: 255, flags: 0 };
        assert(j as int == jitter_of(draws@[k as int], jr as int));
        assert(spike == word_spike(n, pos as int, window, jitter, draws@[k as int]));
        out.push(spike);
        assert(draws@.subrange(0, k + 1) =~= draws@.subrange(0, k as int).push(draws@[k as int]));
        assert(out@ =~= draws@.subrange(0, k + 1).map_values(|d: u64| word_spike(n, pos as int, window, jitter, d)));
        k += 1;
    }
    assert(draws@.subrange(0, draws@.len() as int) =~= draws@);
    out
}

/// The spikes of a sentence: word `pos` fires its neuron `rates[pos]` times
/// when known (`Some`), each spike with a fresh random jitter. Whatever the
/// random draws, the result is the spikes of the sentence for some draws
/// that fit it.
pub fn sentence_spikes(neurons: &[Option<usize>], rates: &[u16], window: usize, jitter: u16) -> (out: Vec<SpikeEvent>)
    requires
        rates@.len() == neurons@.len(),
        delays_fit(neurons@, window, jitter),
    ensures
        exists|draws: Seq<Seq<u64>>| #[trigger] draws_fit(neurons@, rates@, draws)
            && out@ == sentence_spikes_spec(neurons@, window, jitter, draws, neurons@.len() as int),
{
    let ghost ns = neurons@;
    let mut out: Vec<SpikeEvent> = Vec::new();
    let ghost mut draws: Seq<Seq<u64>> = Seq::empty();
    let mut pos: usize = 0;
    while pos < neurons.len()
        invariant
            ns == neurons@,
            rates@.len() == ns.len(),
            delays_fit(ns, window, jitter),
            0 <= pos <= ns.len(),
            draws.len() == pos,
            forall|p: int| 0 <= p < pos ==>
                (#[trigger] draws[p]).len() == (if ns[p] is Some { rates@[p] as int } else { 0 }),
            out@ == sentence_spikes_spec(ns, window, jitter, draws, pos as int),
        decreases ns.len() - pos,
    {
        let ghost before = out@;
        match neurons[pos] {
            Some(n) => {
                let rate = rates[pos];
                let mut d: Vec<u64> = Vec::new();
                let mut k: u16 = 0;
                while k < rate
                    invariant
                        0 <= k <= rate,
                        d@.len() == k,
                    decreases rate - k,
                {
                    d.push(random_u64());
                    k += 1;
                }
                assert(ns[pos as int] is Some);
                let block = word_spikes(n, pos, window, jitter, d.as_slice());
                let mut b: usize = 0;
                while b < block.len()
                    invariant
                        0 <= b <= block@.len(),
                        out@ == before + block@.subrange(0, b as int),
                    decreases block@.len() - b,
                {
                    out.push(block[b]);
                    assert(out@ =~= before + block@.subrange(0, b + 1));
                    b += 1;
                }
                proof {
                    assert(block@.subrange(0, block@.len() as int) =~= block@);
                    let d2 = draws.push(d@);
                    assert(d2.subrange(0, pos as int) =~= draws);
                    lemma_spec_prefix(ns, window, jitter, draws, d2, pos as int);
                    draws = d2;
                }
            },
            None => {
                proof {
                    let d2 = draws.push(Seq::<u64>::empty());
                    lemma_spec_prefix(ns, window, jitter, draws, d2, pos as int);
                    draws = d2;
                }
            },
        }
        pos += 1;
    }
    assert(draws_fit(ns, rates@, draws));
    out
}

/// The spikes of the first `upto` words depend only on the first `upto` draws.
proof fn lemma_spec_prefix(
    neurons: Seq<Option<usize>>,
    window: usize,
    jitter: u16,
    a: Seq<Seq<u64>>,
    b: Seq<Seq<u64>>,
    upto: int,
)
    requires
        0 <= upto <= a.len(),
        upto <= b.len(),
        forall|p: int| 0 <= p < upto ==> #[trigger] a[p] == b[p],
    ensures
        sentence_spikes_spec(neurons, window, jitter, a, upto) == sentence_spikes_spec(neurons, window, jitter, b, upto),
    decreases upto,
{
    if upto > 0 {
        lemma_spec_prefix(neurons, window, jitter, a, b, upto - 1);
        assert(a[upto - 1] == b[upto - 1]);
    }
}

} // verus!
