//! DVS128 event-camera input: pixel events, their neurons, the pending window
//! of an encoder, and the integer side of turning a window into spikes.
//!
//! Neurons are laid out as `[polarity][y][x]`, 128 by 128 per polarity.

use vstd::prelude::*;
use crate::substrate::{NeuronIdx, SpikeEvent};

verus! {

/// A single event of the DVS128 sensor.
#[derive(Debug, Clone, Copy, PartialEq, Eq, Structural)]
pub struct DvsEvent {
    /// X coordinate (0-127).
    pub x: u8,
    /// Y coordinate (0-127).
    pub y: u8,
    /// Polarity: 0 = ON, 1 = OFF.
    pub polarity: u8,
    /// Timestamp in microseconds.
    pub timestamp_us: u32,
}

/// The neuron of an event with polarity channels: `polarity*16384 + y*128 + x`.
pub open spec fn polarity_neuron(e: DvsEvent) -> int {
    e.polarity * 16384 + e.y * 128 + e.x
}

/// The neuron of an event without polarity channels: `y*128 + x`.
pub open spec fn pixel_neuron(e: DvsEvent) -> int {
    e.y * 128 + e.x
}

impl DvsEvent {
    /// Creates an event.
    pub fn new(x: u8, y: u8, polarity: u8, timestamp_us: u32) -> (e: DvsEvent)
        ensures
            e == (DvsEvent { x, y, polarity, timestamp_us }),
    {
        DvsEvent { x, y, polarity, timestamp_us }
    }

    /// The linear neuron index of this event, laid out as `[polarity][y][x]`.
    pub fn neuron_index(&self) -> (r: usize)
        ensures
            r == polarity_neuron(*self),
    {
        (self.polarity as usize) * 128 * 128 + (self.y as usize) * 128 + (self.x as usize)
    }
}

/// Events of the sensor's range (x and y below 128, polarity 0 or 1) at
/// different pixels or of different polarity map to different neurons, all
/// below 32768; ON events take the first 16384.
pub proof fn lemma_neuron_index_injective(a: DvsEvent, b: DvsEvent)
    requires
        a.x < 128 && a.y < 128 && a.polarity < 2,
        b.x < 128 && b.y < 128 && b.polarity < 2,
    ensures
        polarity_neuron(a) < 32768,
        (a.polarity == 0) <==> polarity_neuron(a) < 16384,
        polarity_neuron(a) == polarity_neuron(b) ==> a.x == b.x && a.y == b.y && a.polarity == b.polarity,
{
}

/// The neuron of an event of the sensor's range reads back as its fields:
/// the column is the index modulo 128, the row the index divided by 128
/// modulo 128, and the polarity the index divided by 16384; without
/// polarity channels the index is below 16384 and reads back the same way.
pub proof fn lemma_neuron_fields(e: DvsEvent)
    requires
        e.x < 128 && e.y < 128 && e.polarity < 2,
    ensures
        polarity_neuron(e) % 128 == e.x,
        (polarity_neuron(e) / 128) % 128 == e.y,
        polarity_neuron(e) / 16384 == e.polarity,
        pixel_neuron(e) % 128 == e.x,
        pixel_neuron(e) / 128 == e.y,
{
    let n = polarity_neuron(e);
    assert(n % 128 == e.x && (n / 128) % 128 == e.y && n / 16384 == e.polarity) by (nonlinear_arith)
        requires n == e.polarity * 16384 + e.y * 128 + e.x, 0 <= e.x < 128, 0 <= e.y < 128, 0 <= e.polarity < 2;
    let m = pixel_neuron(e);
    assert(m % 128 == e.x && m / 128 == e.y) by (nonlinear_arith)
        requires m == e.y * 128 + e.x, 0 <= e.x < 128, 0 <= e.y < 128;
}

/// Settings of a DVS encoder.
#[derive(Debug, Clone, Copy, PartialEq, Eq, Structural)]
pub struct DvsEncoderConfig {
    /// Time window size in microseconds.
    pub window_size_us: u32,
    /// Spikes emitted per event.
    pub spikes_per_event: u16,
    /// Largest delay of the temporal code, in ticks.
    pub max_delay_ticks: u16,
    /// Whether ON and OFF events map to separate neuron populations.
    pub use_polarity: bool,
}

/// The default settings: 1 ms windows, one spike per event, delays up to 10
/// ticks, polarity channels on.
pub open spec fn default_dvs_config() -> DvsEncoderConfig {
    DvsEncoderConfig { window_size_us: 1000, spikes_per_event: 1, max_delay_ticks: 10, use_polarity: true }
}

impl Default for DvsEncoderConfig {
    fn default() -> (c: DvsEncoderConfig)
        ensures
            c == default_dvs_config(),
    {
        DvsEncoderConfig { window_size_us: 1000, spikes_per_event: 1, max_delay_ticks: 10, use_polarity: true }
    }
}

/// Accumulates DVS events into a time window.
pub struct DvsEncoder {
    config: DvsEncoderConfig,
    window_base_us: u32,
    window_events: Vec<DvsEvent>,
}

impl View for DvsEncoder {
    /// The settings, the base timestamp of the current window, and the
    /// events pending in it.
    type V = (DvsEncoderConfig, u32, Seq<DvsEvent>);

    closed spec fn view(&self) -> (DvsEncoderConfig, u32, Seq<DvsEvent>) {
        (self.config, self.window_base_us, self.window_events@)
    }
}

/// Whether the window of an encoder with base `base` and size `size` is
/// complete once an event at `ts` arrives; then `ts` starts the next window.
pub open spec fn starts_new_window(base: u32, size: u32, ts: u32) -> bool {
    ts >= base + size
}

impl DvsEncoder {
    /// An encoder with the default settings and nothing pending.
    pub fn new() -> (enc: DvsEncoder)
        ensures
            enc@ == (default_dvs_config(), 0u32, Seq::<DvsEvent>::empty()),
    {
        DvsEncoder::with_config(DvsEncoderConfig::default())
    }

    /// An encoder with the given settings and nothing pending.
    pub fn with_config(config: DvsEncoderConfig) -> (enc: DvsEncoder)
        ensures
            enc@ == (config, 0u32, Seq::<DvsEvent>::empty()),
    {
        DvsEncoder { config, window_base_us: 0, window_events: Vec::new() }
    }

    /// The settings of this encoder.
    pub fn config(&self) -> (c: DvsEncoderConfig)
        ensures
            c == self@.0,
    {
        self.config
    }

    /// The base timestamp of the current window.
    pub fn window_base_us(&self) -> (t: u32)
        ensures
            t == self@.1,
    {
        self.window_base_us
    }

    /// Feeds one event: it joins the pending events, and when it lies at or
    /// past the end of the current window its timestamp becomes the new base.
    pub fn feed_event(&mut self, event: DvsEvent)
        requires
            old(self)@.1 + old(self)@.0.window_size_us <= u32::MAX,
        ensures
            final(self)@.0 == old(self)@.0,
            final(self)@.2 == old(self)@.2.push(event),
            final(self)@.1 == (if starts_new_window(old(self)@.1, old(self)@.0.window_size_us, event.timestamp_us) {
                event.timestamp_us
            } else {
                old(self)@.1
            }),
    {
        if event.timestamp_us >= self.window_base_us + self.config.window_size_us {
            self.window_base_us = event.timestamp_us;
        }
        self.window_events.push(event);
    }

    /// Hands out the pending events and leaves none; the window base stays.
    pub fn take_pending(&mut self) -> (events: Vec<DvsEvent>)
        ensures
            events@ == old(self)@.2,
            final(self)@ == (old(self)@.0, old(self)@.1, Seq::<DvsEvent>::empty()),
    {
        let mut taken: Vec<DvsEvent> = Vec::new();
        std::mem::swap(&mut taken, &mut self.window_events);
        taken
    }

    /// Clears the pending events and the window base.
    pub fn reset(&mut self)
        ensures
            final(self)@ == (old(self)@.0, 0u32, Seq::<DvsEvent>::empty()),
    {
        self.window_events.clear();
        self.window_base_us = 0;
    }

    /// The number of pending events.
    pub fn pending_events(&self) -> (n: usize)
        ensures
            n == self@.2.len(),
    {
        self.window_events.len()
    }
}

/// The neuron an event maps to under the given settings.
pub open spec fn event_neuron(config: DvsEncoderConfig, e: DvsEvent) -> int {
    if config.use_polarity { polarity_neuron(e) } else { pixel_neuron(e) }
}

/// The neuron an event maps to under the given settings.
pub fn neuron_for_event(config: &DvsEncoderConfig, e: &DvsEvent) -> (r: usize)
    ensures
        r == event_neuron(*config, *e),
{
    if config.use_polarity {
        e.neuron_index()
    } else {
        (e.y as usize) * 128 + (e.x as usize)
    }
}

/// The spike an event produces: from its neuron to itself, with the given
/// delay, full amplitude and no flags.
pub open spec fn event_spike(config: DvsEncoderConfig, e: DvsEvent, delay: u16) -> SpikeEvent {
    let n = event_neuron(config, e) as usize;
    SpikeEvent { src: NeuronIdx(n), dst: NeuronIdx(n), delay_ticks: delay, amplitude_u8: 255, flags: 0 }
}

/// `out` holds, for each event in turn, `per_event` copies of its spike.
pub open spec fn is_window_spikes(
    out: Seq<SpikeEvent>,
    config: DvsEncoderConfig,
    events: Seq<DvsEvent>,
    delays: Seq<u16>,
) -> bool {
    let k = config.spikes_per_event as int;
    &&& out.len() == events.len() * k
    &&& forall|i: int, j: int| 0 <= i < events.len() && 0 <= j < k ==>
        #[trigger] out[i * k + j] == event_spike(config, events[i], delays[i])
}

/// The spikes of a window of events, given the delay of each event: every
/// event yields `spikes_per_event` spikes in a row, in the order of the events.
pub fn window_spikes(config: &DvsEncoderConfig, events: &[DvsEvent], delays: &[u16]) -> (out: Vec<SpikeEvent>)
    requires
        delays@.len() == events@.len(),
        events@.len() * config.spikes_per_event <= usize::MAX,
    ensures
        is_window_spikes(out@, *config, events@, delays@),
{
    let k = config.spikes_per_event as usize;
    let mut out: Vec<SpikeEvent> = Vec::new();
    let mut i: usize = 0;
    while i < events.len()
        invariant
            k == config.spikes_per_event,
            delays@.len() == events@.len(),
            events@.len() * k <= usize::MAX,
            0 <= i <= events@.len(),
            out@.len() == i * k,
            forall|a: int, b: int| 0 <= a < i && 0 <= b < k ==>
                #[trigger] out@[a * k + b] == event_spike(*config, events@[a], delays@[a]),
        decreases events@.len() - i,
    {
        let e = events[i];
        let n = neuron_for_event(config, &e);
        let spike = SpikeEvent {
            src: NeuronIdx(n),
            dst: NeuronIdx(n),
            delay_ticks: delays[i],
            amplitude_u8: 255,
            flags: 0,
        };
        assert(spike == event_spike(*config, events@[i as int], delays@[i as int]));
        let ghost before = out@;
        let mut j: usize = 0;
        while j < k
            invariant
                k == config.spikes_per_event,
                0 <= i < events@.len(),
                before.len() == i * k,
                0 <= j <= k,
                out@.len() == i * k + j,
                forall|m: int| 0 <= m < i * k ==> #[trigger] out@[m] == before[m],
                forall|b: int| 0 <= b < j ==> #[trigger] out@[i * k + b] == spike,
            decreases k - j,
        {
            out.push(spike);
            j += 1;
        }
        proof {
            assert((i + 1) * k == i * k + k) by (nonlinear_arith);
            assert forall|a: int, b: int| 0 <= a < i + 1 && 0 <= b < k implies
                #[trigger] out@[a * k + b] == event_spike(*config, events@[a], delays@[a]) by {
                if a < i {
                    assert(a * k + b < i * k) by (nonlinear_arith) requires a < i, 0 <= b < k, 0 <= a;
                    assert(out@[a * k + b] == before[a * k + b]);
                } else {
                    assert(a * k + b == i * k + b);
                }
            }
        }
        i += 1;
    }
    out
}

/// Some position of `perm` holds `idx`.
pub open spec fn perm_covers(perm: Seq<int>, idx: int) -> bool {
    exists|k: int| 0 <= k < perm.len() && perm[k] == idx
}

/// `s` lists the events of `o` in the order `perm`, each exactly once.
pub open spec fn events_permuted(s: Seq<DvsEvent>, o: Seq<DvsEvent>, perm: Seq<int>) -> bool {
    &&& perm.len() == o.len()
    &&& s.len() == o.len()
    &&& forall|k: int| 0 <= k < perm.len() ==> 0 <= #[trigger] perm[k] < o.len() && s[k] == o[perm[k]]
    &&& forall|a: int, b: int| 0 <= a < b < perm.len() ==> #[trigger] perm[a] != #[trigger] perm[b]
    &&& forall|idx: int| 0 <= idx < o.len() ==> #[trigger] perm_covers(perm, idx)
}

/// `s` is `o` sorted by timestamp, events with equal timestamps keeping
/// their order in `o`, as witnessed by `perm`.
pub open spec fn stably_sorted_by_time(s: Seq<DvsEvent>, o: Seq<DvsEvent>, perm: Seq<int>) -> bool {
    &&& events_permuted(s, o, perm)
    &&& forall|a: int, b: int| 0 <= a < b < s.len() ==>
        (#[trigger] s[a]).timestamp_us < (#[trigger] s[b]).timestamp_us
        || (s[a].timestamp_us == s[b].timestamp_us && perm[a] < perm[b])
}

/// Sorts events by timestamp; events with equal timestamps keep their order.
pub fn sort_by_timestamp(events: &[DvsEvent]) -> (sorted: Vec<DvsEvent>)
    ensures
        exists|perm: Seq<int>| #[trigger] stably_sorted_by_time(sorted@, events@, perm),
{
    let ghost orig = events@;
    let n = events.len();
    let mut rest: Vec<DvsEvent> = Vec::new();
    let mut c: usize = 0;
    while c < n
        invariant
            n == orig.len(),
            orig == events@,
            0 <= c <= n,
            rest@ == orig.subrange(0, c as int),
        decreases n - c,
    {
        rest.push(events[c]);
        assert(rest@ =~= orig.subrange(0, c + 1));
        c += 1;
    }
    let mut sorted: Vec<DvsEvent> = Vec::new();
    let ghost mut perm: Seq<int> = Seq::empty();
    while rest.len() > 0
        invariant
            n == orig.len(),
            rest@.len() <= n,
            rest@ == orig.subrange(0, rest@.len() as int),
            sorted@.len() == n - rest@.len(),
            perm.len() == sorted@.len(),
            forall|k: int| 0 <= k < perm.len() ==> rest@.len() <= #[trigger] perm[k] < n && sorted@[k] == orig[perm[k]],
            forall|a: int, b: int| 0 <= a < b < perm.len() ==> #[trigger] perm[a] != #[trigger] perm[b],
            forall|idx: int| rest@.len() <= idx < n ==> #[trigger] perm_covers(perm, idx),
            forall|a: int, b: int| 0 <= a < b < sorted@.len() ==>
                (#[trigger] sorted@[a]).timestamp_us < (#[trigger] sorted@[b]).timestamp_us
                || (sorted@[a].timestamp_us == sorted@[b].timestamp_us && perm[a] < perm[b]),
        decreases rest@.len(),
    {
        let ghost r0 = rest@;
        let x = match rest.pop() {
            Some(x) => x,
            None => { return sorted; },
        };
        let ghost xi = (r0.len() - 1) as int;
        assert(r0 == rest@.push(x));
        assert(x == orig[xi]);
        assert(rest@ =~= orig.subrange(0, rest@.len() as int));
        let t = x.timestamp_us;
        let mut pos: usize = 0;
        while pos < sorted.len() && sorted[pos].timestamp_us < t
            invariant
                0 <= pos <= sorted@.len(),
                t == x.timestamp_us,
                forall|k: int| 0 <= k < pos ==> (#[trigger] sorted@[k]).timestamp_us < t,
            decreases sorted@.len() - pos,
        {
            pos += 1;
        }
        let ghost s0 = sorted@;
        let ghost p0 = perm;
        sorted.insert(pos, x);
        proof {
            perm = p0.insert(pos as int, xi);
            let s1 = sorted@;
            assert(s1 == s0.insert(pos as int, x));
            assert forall|k: int| 0 <= k < perm.len() implies rest@.len() <= #[trigger] perm[k] < n && s1[k] == orig[perm[k]] by {
                if k < pos { assert(perm[k] == p0[k]); }
                else if k > pos { assert(perm[k] == p0[k - 1]); }
            }
            assert forall|a: int, b: int| 0 <= a < b < perm.len() implies #[trigger] perm[a] != #[trigger] perm[b] by {
                if a != pos && b != pos {
                    let a0 = if a < pos { a } else { a - 1 };
                    let b0 = if b < pos { b } else { b - 1 };
                    assert(perm[a] == p0[a0] && perm[b] == p0[b0]);
                } else if a == pos {
                    assert(perm[b] == p0[b - 1]);
                } else {
                    assert(perm[a] == p0[a]);
                }
            }
            assert forall|idx: int| rest@.len() <= idx < n implies #[trigger] perm_covers(perm, idx) by {
                if idx == xi {
                    assert(perm[pos as int] == xi);
                } else {
                    assert(perm_covers(p0, idx));
                    let k0 = choose|k0: int| 0 <= k0 < p0.len() && p0[k0] == idx;
                    if k0 < pos { assert(perm[k0] == idx); } else { assert(perm[k0 + 1] == idx); }
                }
            }
            assert forall|a: int, b: int| 0 <= a < b < s1.len() implies
                (#[trigger] s1[a]).timestamp_us < (#[trigger] s1[b]).timestamp_us
                || (s1[a].timestamp_us == s1[b].timestamp_us && perm[a] < perm[b]) by {
                if a != pos && b != pos {
                    let a0 = if a < pos { a } else { a - 1 };
                    let b0 = if b < pos { b } else { b - 1 };
                    assert(s1[a] == s0[a0] && s1[b] == s0[b0]);
                    assert(perm[a] == p0[a0] && perm[b] == p0[b0]);
                } else if a == pos {
                    let b0 = b - 1;
                    assert(s1[b] == s0[b0]);
                    assert(perm[b] == p0[b0]);
                    assert(p0[b0] > xi);
                    if b0 > pos as int {
                        assert(s0[pos as int].timestamp_us >= t);
                    } else {
                        assert(s0[b0].timestamp_us >= t);
                    }
                } else {
                    assert(s1[a] == s0[a]);
                    assert(s0[a].timestamp_us < t);
                }
            }
        }
    }
    assert(rest@.len() == 0);
    assert(stably_sorted_by_time(sorted@, orig, perm));
    sorted
}

/// The earliest and latest timestamp among the events, `None` for no events.
pub fn timestamp_range(events: &[DvsEvent]) -> (r: Option<(u32, u32)>)
    ensures
        events@.len() == 0 <==> r is None,
        r matches Some((lo, hi)) ==> {
            &&& exists|i: int| 0 <= i < events@.len() && #[trigger] events@[i].timestamp_us == lo
            &&& exists|i: int| 0 <= i < events@.len() && #[trigger] events@[i].timestamp_us == hi
            &&& forall|i: int| 0 <= i < events@.len() ==> lo <= #[trigger] events@[i].timestamp_us <= hi
        },
{
    if events.len() == 0 {
        return None;
    }
    let mut lo = events[0].timestamp_us;
    let mut hi = events[0].timestamp_us;
    let mut i: usize = 1;
    while i < events.len()
        invariant
            1 <= i <= events@.len(),
            exists|k: int| 0 <= k < i && #[trigger] events@[k].timestamp_us == lo,
            exists|k: int| 0 <= k < i && #[trigger] events@[k].timestamp_us == hi,
            forall|k: int| 0 <= k < i ==> lo <= #[trigger] events@[k].timestamp_us <= hi,
        decreases events@.len() - i,
    {
        let t = events[i].timestamp_us;
        if t < lo {
            lo = t;
        }
        if t > hi {
            hi = t;
        }
        i += 1;
    }
    Some((lo, hi))
}

} // verus!
