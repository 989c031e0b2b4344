//! SHD-CCP spike packets: spike events in a compact little-endian wire format.
//!
//! ```text
//! Header : u32 (LE) — number of spike events
//! Per event, 12 bytes:
//!   Δsrc  : u16 (LE) — source neuron minus the previous source, modulo 2^16
//!   dst   : u32 (LE) — destination neuron
//!   delay : u16 (LE)
//!   amp   : u8
//!   flags : u8
//!   pad   : 2 zero bytes
//! ```

use vstd::prelude::*;
use crate::substrate::{NeuronIdx, SpikeEvent};
use crate::wire::{le16, le32, read16, read32, byte_of, lemma_read16_bytes, lemma_read32_bytes, put_u16, put_u32, put_u8, get_u16, get_u32,
    lemma_le16_roundtrip, lemma_le32_roundtrip};

verus! {

/// The source neuron of an event reduced to 32 bits.
pub open spec fn src32(e: SpikeEvent) -> int {
    (e.src.0 as int) % 0x1_0000_0000
}

/// The destination neuron of an event reduced to 32 bits.
pub open spec fn dst32(e: SpikeEvent) -> int {
    (e.dst.0 as int) % 0x1_0000_0000
}

/// The 32-bit source of the event before event `i` (0 before the first).
pub open spec fn prev_src32(s: Seq<SpikeEvent>, i: int) -> int {
    if i <= 0 { 0 } else { src32(s[i - 1]) }
}

/// The 12 wire bytes of event `i`.
#[verifier::opaque]
pub open spec fn spike_record(s: Seq<SpikeEvent>, i: int) -> Seq<u8> {
    let d = (src32(s[i]) - prev_src32(s, i)) % 0x10000;
    let t = dst32(s[i]);
    let y = s[i].delay_ticks as int;
    seq![byte_of(d, 0), byte_of(d, 1), byte_of(t, 0), byte_of(t, 1), byte_of(t, 2), byte_of(t, 3),
        byte_of(y, 0), byte_of(y, 1), s[i].amplitude_u8, s[i].flags, 0u8, 0u8]
}

/// The wire bytes of the first `n` events.
#[verifier::opaque]
pub open spec fn spike_records(s: Seq<SpikeEvent>, n: int) -> Seq<u8>
    decreases n,
{
    if n <= 0 { Seq::empty() } else { spike_records(s, n - 1) + spike_record(s, n - 1) }
}

/// The packet for a spike stream: empty for no events, otherwise the event
/// count (modulo 2^32) followed by the event records.
#[verifier::opaque]
pub open spec fn encoded_spikes(s: Seq<SpikeEvent>) -> Seq<u8> {
    if s.len() == 0 { Seq::empty() } else { le32((s.len() as int) % 0x1_0000_0000) + spike_records(s, s.len() as int) }
}

/// The number of events a packet yields: the count in its header, cut to the
/// complete 12-byte records present; 0 without a header.
pub open spec fn decoded_count(p: Seq<u8>) -> int {
    if p.len() < 4 {
        0
    } else if read32(p, 0) <= (p.len() - 4) / 12 {
        read32(p, 0)
    } else {
        (p.len() - 4) / 12
    }
}

/// The source neuron of decoded event `i`: the running sum of deltas modulo 2^32.
pub open spec fn decoded_src(p: Seq<u8>, i: int) -> int
    decreases i + 1,
{
    if i < 0 { 0 } else { (decoded_src(p, i - 1) + read16(p, 4 + 12 * i)) % 0x1_0000_0000 }
}

/// Decoded event `i` of a packet.
pub open spec fn decoded_event(p: Seq<u8>, i: int) -> SpikeEvent {
    let at = 4 + 12 * i;
    SpikeEvent {
        src: NeuronIdx(decoded_src(p, i) as usize),
        dst: NeuronIdx(read32(p, at + 2) as usize),
        delay_ticks: read16(p, at + 6) as u16,
        amplitude_u8: p[at + 8],
        flags: p[at + 9],
    }
}

/// The low 32 bits of a machine-sized value.
pub fn low32(x: usize) -> (r: u32)
    ensures
        r as int == x as int % 0x1_0000_0000,
{
    let w = x as u64;
    let r = w as u32;
    assert(r == w % 0x1_0000_0000) by (bit_vector) requires r == w as u32;
    r
}

/// Encodes spike events into a packet; empty for no events.
pub fn encode_spikes(spikes: &[SpikeEvent]) -> (out: Vec<u8>)
    ensures
        out@ == encoded_spikes(spikes@),
        spikes@.len() > 0 ==> out@.len() == 4 + 12 * spikes@.len(),
{
    proof {
        reveal(encoded_spikes);
        reveal(spike_records);
    }
    if spikes.len() == 0 {
        return Vec::new();
    }
    let ghost s = spikes@;
    let mut out: Vec<u8> = Vec::new();
    let len = spikes.len();
    let n = low32(len);
    put_u32(&mut out, n);
    let ghost head = out@;
    let mut prev_src: u32 = 0;
    let mut i: usize = 0;
    while i < spikes.len()
        invariant
            s == spikes@,
            0 <= i <= s.len(),
            head == le32((s.len() as int) % 0x1_0000_0000),
            out@ == head + spike_records(s, i as int),
            out@.len() == 4 + 12 * i,
            prev_src == prev_src32(s, i as int),
        decreases s.len() - i,
    {
        let evt = spikes[i];
        let src = evt.src.0;
        let dst = evt.dst.0;
        let src_u32 = low32(src);
        let dst_u32 = low32(dst);
        let wide = src_u32.wrapping_sub(prev_src);
        let delta = wide as u16;
        assert(delta == wide % 0x10000) by (bit_vector) requires delta == wide as u16;
        assert(delta as int == (src32(evt) - prev_src32(s, i as int)) % 0x10000) by (nonlinear_arith)
            requires
                src_u32 as int == src32(evt),
                prev_src as int == prev_src32(s, i as int),
                wide as int == (if src_u32 - prev_src < 0 { src_u32 - prev_src + 0x1_0000_0000 } else { src_u32 - prev_src }),
                delta as int == wide as int % 0x10000,
        ;
        prev_src = src_u32;
        let ghost before = out@;
        put_u16(&mut out, delta);
        put_u32(&mut out, dst_u32);
        put_u16(&mut out, evt.delay_ticks);
        put_u8(&mut out, evt.amplitude_u8);
        put_u8(&mut out, evt.flags);
        put_u8(&mut out, 0);
        put_u8(&mut out, 0);
        assert(out@ =~= before + spike_record(s, i as int)) by {
            reveal(spike_record);
        }
        assert(out@ =~= head + spike_records(s, i + 1)) by {
            reveal(spike_records);
        }
        i += 1;
    }
    out
}

/// Decodes a packet into spike events. Never fails: without a header there
/// are no events, and a truncated last record is dropped.
pub fn decode_spikes(payload: &[u8]) -> (out: Vec<SpikeEvent>)
    ensures
        out@.len() == decoded_count(payload@),
        forall|i: int| 0 <= i < out@.len() ==> #[trigger] out@[i] == decoded_event(payload@, i),
{
    if payload.len() < 4 {
        return Vec::new();
    }
    let ghost p = payload@;
    let n = get_u32(payload, 0) as usize;
    let len = payload.len();
    let mut out: Vec<SpikeEvent> = Vec::new();
    let mut prev_src: u32 = 0;
    let mut cursor: usize = 4;
    let mut i: usize = 0;
    while i < n && len - cursor >= 12
        invariant
            p == payload@,
            len == p.len(),
            len >= 4,
            n == read32(p, 0),
            0 <= i <= n,
            cursor == 4 + 12 * i,
            cursor <= len,
            out@.len() == i,
            prev_src == decoded_src(p, i - 1),
            forall|k: int| 0 <= k < i ==> #[trigger] out@[k] == decoded_event(p, k),
        decreases n - i,
    {
        let delta = get_u16(payload, cursor) as u32;
        let dst_u32 = get_u32(payload, cursor + 2);
        let delay = get_u16(payload, cursor + 6);
        let amplitude = payload[cursor + 8];
        let flags = payload[cursor + 9];
        cursor += 12;
        let src_u32 = prev_src.wrapping_add(delta);
        assert(src_u32 as int == (prev_src + delta) % 0x1_0000_0000) by (nonlinear_arith)
            requires
                src_u32 as int == (if prev_src + delta > u32::MAX { prev_src + delta - 0x1_0000_0000 } else { prev_src + delta }),
                0 <= prev_src + delta < 2 * 0x1_0000_0000,
        ;
        prev_src = src_u32;
        let evt = SpikeEvent {
            src: NeuronIdx(src_u32 as usize),
            dst: NeuronIdx(dst_u32 as usize),
            delay_ticks: delay,
            amplitude_u8: amplitude,
            flags,
        };
        assert(evt == decoded_event(p, i as int));
        out.push(evt);
        i += 1;
    }
    proof {
        if i < n {
            assert((len - 4) / 12 == i) by (nonlinear_arith)
                requires cursor == 4 + 12 * i, cursor + 12 > len, cursor <= len, len >= 4;
        } else {
            assert(n <= (len - 4) / 12) by (nonlinear_arith)
                requires i == n, cursor == 4 + 12 * i, cursor <= len, len >= 4;
        }
    }
    out
}

/// A stream the packet format carries exactly: fewer than 2^32 events,
/// neuron indices below 2^32, and each source neuron at most 65535 above the
/// previous one, counting modulo 2^32 (the first against 0).
pub open spec fn stream_fits(s: Seq<SpikeEvent>) -> bool {
    &&& s.len() < 0x1_0000_0000
    &&& forall|i: int| 0 <= i < s.len() ==> (#[trigger] s[i]).src.0 < 0x1_0000_0000 && s[i].dst.0 < 0x1_0000_0000
    &&& forall|i: int| 0 <= i < s.len() ==> (src32(#[trigger] s[i]) - prev_src32(s, i)) % 0x1_0000_0000 < 0x10000
}

/// Record `i` occupies bytes `12i..12i+12` of the records.
proof fn lemma_records_layout(s: Seq<SpikeEvent>, n: int)
    requires
        0 <= n <= s.len(),
    ensures
        spike_records(s, n).len() == 12 * n,
        forall|i: int| 0 <= i < n ==> #[trigger] spike_records(s, n).subrange(12 * i, 12 * i + 12) == spike_record(s, i),
    decreases n,
{
    reveal(spike_records);
    reveal(spike_record);
    if n > 0 {
        lemma_records_layout(s, n - 1);
        let r = spike_records(s, n);
        let r0 = spike_records(s, n - 1);
        assert forall|i: int| 0 <= i < n implies #[trigger] r.subrange(12 * i, 12 * i + 12) == spike_record(s, i) by {
            if i < n - 1 {
                assert(r.subrange(12 * i, 12 * i + 12) =~= r0.subrange(12 * i, 12 * i + 12));
            } else {
                assert(r.subrange(12 * i, 12 * i + 12) =~= spike_record(s, i));
            }
        }
    }
}

/// Byte `k` of record `i` sits at `4 + 12i + k` of the packet.
pub proof fn lemma_record_bytes(s: Seq<SpikeEvent>, i: int)
    requires
        0 <= i < s.len(),
    ensures
        encoded_spikes(s).len() == 4 + 12 * s.len(),
        forall|k: int| 0 <= k < 12 ==> encoded_spikes(s)[4 + 12 * i + k] == #[trigger] spike_record(s, i)[k],
{
    let n = s.len() as int;
    reveal(encoded_spikes);
    lemma_records_layout(s, n);
    let r = spike_records(s, n);
    let e = encoded_spikes(s);
    assert(e == le32(n % 0x1_0000_0000) + r);
    assert(r.subrange(12 * i, 12 * i + 12) == spike_record(s, i));
    assert forall|k: int| 0 <= k < 12 implies e[4 + 12 * i + k] == #[trigger] spike_record(s, i)[k] by {
        assert(r.subrange(12 * i, 12 * i + 12)[k] == r[12 * i + k]);
        assert(e[4 + 12 * i + k] == r[12 * i + k]);
    }
}

/// Adding the 16-bit delta to the previous source gives the source back.
proof fn lemma_delta_sum(prev: int, src: int)
    requires
        0 <= prev < 0x1_0000_0000,
        0 <= src < 0x1_0000_0000,
        (src - prev) % 0x1_0000_0000 < 0x10000,
    ensures
        (prev + (src - prev) % 0x10000) % 0x1_0000_0000 == src,
{
    assert((prev + (src - prev) % 0x10000) % 0x1_0000_0000 == src) by (nonlinear_arith)
        requires
            0 <= prev < 0x1_0000_0000,
            0 <= src < 0x1_0000_0000,
            (src - prev) % 0x1_0000_0000 < 0x10000;
}

/// Little-endian fields written as bytes read back as the fields.
proof fn lemma_fields_read_back(e: Seq<u8>, at: int, d: int, t: int, y: int)
    requires
        0 <= at,
        at + 12 <= e.len(),
        0 <= d < 0x10000,
        0 <= t < 0x1_0000_0000,
        0 <= y < 0x10000,
        e[at] == byte_of(d, 0),
        e[at + 1] == byte_of(d, 1),
        e[at + 2] == byte_of(t, 0),
        e[at + 3] == byte_of(t, 1),
        e[at + 4] == byte_of(t, 2),
        e[at + 5] == byte_of(t, 3),
        e[at + 6] == byte_of(y, 0),
        e[at + 7] == byte_of(y, 1),
    ensures
        read16(e, at) == d,
        read32(e, at + 2) == t,
        read16(e, at + 6) == y,
{
    lemma_read16_bytes(e, at, d);
    lemma_read32_bytes(e, at + 2, t);
    lemma_read16_bytes(e, at + 6, y);
}

/// The fields of record `i` read back from the packet.
#[verifier::spinoff_prover]
proof fn lemma_record_fields(s: Seq<SpikeEvent>, i: int)
    requires
        stream_fits(s),
        0 <= i < s.len(),
    ensures
        read16(encoded_spikes(s), 4 + 12 * i) == (src32(s[i]) - prev_src32(s, i)) % 0x10000,
        read32(encoded_spikes(s), 4 + 12 * i + 2) == s[i].dst.0,
        read16(encoded_spikes(s), 4 + 12 * i + 6) == s[i].delay_ticks,
        encoded_spikes(s)[4 + 12 * i + 8] == s[i].amplitude_u8,
        encoded_spikes(s)[4 + 12 * i + 9] == s[i].flags,
{
    let e = encoded_spikes(s);
    let rec = spike_record(s, i);
    let at = 4 + 12 * i;
    lemma_record_bytes(s, i);
    let d = (src32(s[i]) - prev_src32(s, i)) % 0x10000;
    let t = dst32(s[i]);
    let y = s[i].delay_ticks as int;
    assert(rec =~= seq![byte_of(d, 0), byte_of(d, 1), byte_of(t, 0), byte_of(t, 1), byte_of(t, 2), byte_of(t, 3),
        byte_of(y, 0), byte_of(y, 1), s[i].amplitude_u8, s[i].flags, 0u8, 0u8]) by {
        reveal(spike_record);
    }
    assert(e[at] == rec[0] && e[at + 1] == rec[1]);
    assert(e[at + 2] == rec[2] && e[at + 3] == rec[3] && e[at + 4] == rec[4] && e[at + 5] == rec[5]);
    assert(e[at + 6] == rec[6] && e[at + 7] == rec[7]);
    assert(e[at + 8] == rec[8] && e[at + 9] == rec[9]);
    assert(s[i].dst.0 < 0x1_0000_0000);
    assert(t == s[i].dst.0);
    lemma_fields_read_back(e, at, d, t, y);
}

/// Decoding the packet of a stream that fits the format gives the stream back.
#[verifier::spinoff_prover]
#[verifier::rlimit(60)]
pub proof fn lemma_spikes_roundtrip(s: Seq<SpikeEvent>)
    requires
        stream_fits(s),
    ensures
        decoded_count(encoded_spikes(s)) == s.len(),
        forall|i: int| 0 <= i < s.len() ==> #[trigger] decoded_event(encoded_spikes(s), i) == s[i],
{
    if s.len() == 0 {
        assert(encoded_spikes(s).len() == 0) by {
            reveal(encoded_spikes);
        }
        return;
    }
    let e = encoded_spikes(s);
    let n = s.len() as int;
    lemma_record_bytes(s, 0);
    lemma_le32_roundtrip(n);
    assert(e == le32(n % 0x1_0000_0000) + spike_records(s, n)) by {
        reveal(encoded_spikes);
    }
    assert(read32(e, 0) == read32(le32(n), 0));
    assert((e.len() - 4) / 12 == n);
    assert forall|i: int| 0 <= i < n implies #[trigger] decoded_event(e, i) == s[i] by {
        lemma_decoded_event(s, i);
    }
}

/// The running source sum over the packet of a fitting stream gives the
/// 32-bit source of each event.
#[verifier::spinoff_prover]
proof fn lemma_decoded_src(s: Seq<SpikeEvent>, i: int)
    requires
        stream_fits(s),
        0 <= i < s.len(),
    ensures
        decoded_src(encoded_spikes(s), i) == src32(s[i]),
    decreases i,
{
    let e = encoded_spikes(s);
    if i > 0 {
        lemma_decoded_src(s, i - 1);
    }
    let prev = prev_src32(s, i);
    let src = src32(s[i]);
    assert(decoded_src(e, i - 1) == prev);
    assert(read16(e, 4 + 12 * i) == (src - prev) % 0x10000) by {
        lemma_record_fields(s, i);
    }
    assert((src - prev) % 0x1_0000_0000 < 0x10000);
    lemma_delta_sum(prev, src);
    assert(decoded_src(e, i) == (decoded_src(e, i - 1) + read16(e, 4 + 12 * i)) % 0x1_0000_0000);
}

/// Decoded event `i` of the packet of a fitting stream is event `i`.
#[verifier::spinoff_prover]
proof fn lemma_decoded_event(s: Seq<SpikeEvent>, i: int)
    requires
        stream_fits(s),
        0 <= i < s.len(),
    ensures
        decoded_event(encoded_spikes(s), i) == s[i],
{
    let e = encoded_spikes(s);
    lemma_record_fields(s, i);
    lemma_decoded_src(s, i);
    let x = s[i];
    assert(x.src.0 < 0x1_0000_0000 && x.dst.0 < 0x1_0000_0000);
    assert(src32(x) == x.src.0);
    let d = decoded_event(e, i);
    assert(d.src == x.src);
    assert(d.dst == x.dst);
}

} // verus!