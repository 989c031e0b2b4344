//! Payload codecs of the extended SHD-CCP format for the integer data types:
//! spike streams, ARC grids, DVS event batches and DVS encoder settings.
//!
//! The decoders read a payload that holds every byte its own length fields
//! announce; `*_complete` says when that is so.

use vstd::prelude::*;
use crate::substrate::{NeuronIdx, SpikeEvent, SpikeBuffer};
use crate::grid::{ArcGrid, grid_width, valid_cells};
use crate::dvs::{DvsEvent, DvsEncoderConfig};
use crate::wire::{byte_of, le16, le32, le64, read16, read32, read64, put_u8, put_u16, put_u32, put_u64, get_u16, get_u32,
    get_u64, lemma_le16_roundtrip, lemma_le32_roundtrip, lemma_le64_roundtrip, lemma_read16_bytes, lemma_read32_bytes};
use crate::shd_ccp::{spike_records, encoded_spikes, decoded_count, decoded_event, stream_fits,
    encode_spikes, decode_spikes, low32, lemma_spikes_roundtrip, lemma_record_bytes, spike_record, src32, dst32,
    prev_src32};

verus! {

// ---------------------------------------------------------------------------
// Byte blocks of a fixed width
// ---------------------------------------------------------------------------

/// The blocks of `rows` one after another.
pub open spec fn concat_all(rows: Seq<Seq<u8>>) -> Seq<u8>
    decreases rows.len(),
{
    if rows.len() == 0 {
        Seq::empty()
    } else {
        concat_all(rows.drop_last()) + rows.last()
    }
}

/// Blocks of one width `w` lie one after another: block `r` occupies bytes
/// `r*w .. r*w + w`.
pub proof fn lemma_concat_layout(rows: Seq<Seq<u8>>, w: int)
    requires
        w >= 0,
        forall|r: int| 0 <= r < rows.len() ==> (#[trigger] rows[r]).len() == w,
    ensures
        concat_all(rows).len() == rows.len() * w,
        forall|r: int, c: int| 0 <= r < rows.len() && 0 <= c < w ==>
            concat_all(rows)[r * w + c] == #[trigger] rows[r][c],
    decreases rows.len(),
{
    if rows.len() > 0 {
        let n = rows.len() as int;
        let prev = rows.drop_last();
        lemma_concat_layout(prev, w);
        let all = concat_all(rows);
        assert(all == concat_all(prev) + rows.last());
        assert(n * w == (n - 1) * w + w) by (nonlinear_arith);
        assert forall|r: int, c: int| 0 <= r < n && 0 <= c < w implies all[r * w + c] == #[trigger] rows[r][c] by {
            if r < n - 1 {
                assert(r * w + c < (n - 1) * w) by (nonlinear_arith) requires r < n - 1, 0 <= c < w;
                assert(prev[r] == rows[r]);
                assert(0 <= r * w + c) by (nonlinear_arith) requires 0 <= r, 0 <= c, w >= 0;
            } else {
                assert(r * w + c == (n - 1) * w + c);
            }
        }
    }
}

// ---------------------------------------------------------------------------
// Spike streams
// ---------------------------------------------------------------------------

/// The payload of a spike stream: the event count (modulo 2^32), then the
/// 12-byte records of the SHD-CCP packet format; 4 bytes for no events.
pub open spec fn spike_stream_bytes(s: Seq<SpikeEvent>) -> Seq<u8> {
    le32((s.len() as int) % 0x1_0000_0000) + spike_records(s, s.len() as int)
}

/// The payload holds the count and every record the count announces.
pub open spec fn spike_stream_complete(p: Seq<u8>) -> bool {
    p.len() >= 4 && 4 + 12 * read32(p, 0) <= p.len()
}

/// Encodes a spike stream payload.
pub fn encode_spike_stream(spikes: &[SpikeEvent]) -> (out: Vec<u8>)
    ensures
        out@ == spike_stream_bytes(spikes@),
{
    if spikes.len() == 0 {
        let mut out: Vec<u8> = Vec::new();
        put_u32(&mut out, 0);
        proof {
            reveal(spike_records);
            assert(out@ =~= spike_stream_bytes(spikes@));
        }
        return out;
    }
    let out = encode_spikes(spikes);
    proof {
        reveal(encoded_spikes);
    }
    out
}

/// Whether a spike stream payload is complete.
pub fn spike_stream_is_complete(p: &[u8]) -> (r: bool)
    ensures
        r == spike_stream_complete(p@),
{
    if p.len() < 4 {
        return false;
    }
    let n = get_u32(p, 0) as u64;
    12 * n + 4 <= p.len() as u64
}

/// Decodes a complete spike stream payload: the announced number of events,
/// each source the running sum of the deltas modulo 2^32.
pub fn decode_spike_stream(buf: &[u8]) -> (out: Vec<SpikeEvent>)
    requires
        spike_stream_complete(buf@),
    ensures
        out@.len() == read32(buf@, 0),
        forall|i: int| 0 <= i < out@.len() ==> #[trigger] out@[i] == decoded_event(buf@, i),
{
    proof {
        let p = buf@;
        let n = read32(p, 0);
        assert(n <= (p.len() - 4) / 12) by (nonlinear_arith)
            requires 4 + 12 * n <= p.len(), p.len() >= 4;
        assert(decoded_count(p) == n);
    }
    decode_spikes(buf)
}

/// The payload of a stream that fits the packet format decodes to the stream.
pub proof fn lemma_spike_stream_roundtrip(s: Seq<SpikeEvent>)
    requires
        stream_fits(s),
    ensures
        spike_stream_complete(spike_stream_bytes(s)),
        read32(spike_stream_bytes(s), 0) == s.len(),
        forall|i: int| 0 <= i < s.len() ==> #[trigger] decoded_event(spike_stream_bytes(s), i) == s[i],
{
    let b = spike_stream_bytes(s);
    let n = s.len() as int;
    lemma_le32_roundtrip(n);
    if n == 0 {
        reveal(spike_records);
        assert(b =~= le32(0));
    } else {
        assert(b == encoded_spikes(s)) by {
            reveal(encoded_spikes);
        }
        lemma_record_bytes(s, 0);
        lemma_spikes_roundtrip(s);
        assert(read32(b, 0) == read32(le32(n), 0));
    }
}

/// The events of a spike buffer: each recorded index becomes a spike from
/// that neuron to itself with no delay, full amplitude and no flags.
pub open spec fn buffer_event(i: u32) -> SpikeEvent {
    SpikeEvent { src: NeuronIdx(i as usize), dst: NeuronIdx(i as usize), delay_ticks: 0, amplitude_u8: 255, flags: 0 }
}

/// The spike stream a spike buffer stands for.
pub fn spike_buffer_events(buf: &SpikeBuffer) -> (out: Vec<SpikeEvent>)
    ensures
        out@.len() == buf.indices@.len(),
        forall|k: int| 0 <= k < out@.len() ==> #[trigger] out@[k] == buffer_event(buf.indices@[k]),
{
    let mut out: Vec<SpikeEvent> = Vec::new();
    let mut k: usize = 0;
    while k < buf.indices.len()
        invariant
            0 <= k <= buf.indices@.len(),
            out@.len() == k,
            forall|m: int| 0 <= m < k ==> #[trigger] out@[m] == buffer_event(buf.indices@[m]),
        decreases buf.indices@.len() - k,
    {
        let i = buf.indices[k];
        out.push(SpikeEvent { src: NeuronIdx(i as usize), dst: NeuronIdx(i as usize), delay_ticks: 0, amplitude_u8: 255, flags: 0 });
        k += 1;
    }
    out
}

// ---------------------------------------------------------------------------
// ARC grids
// ---------------------------------------------------------------------------

/// The payload of a grid: width and height as 16-bit values, then the cells
/// row by row.
pub open spec fn arc_grid_bytes(g: ArcGrid) -> Seq<u8> {
    le16((g.width as int) % 0x10000) + le16((g.height as int) % 0x10000) + concat_all(g@)
}

/// The payload holds width times height cells after its 4-byte head.
pub open spec fn arc_grid_complete(p: Seq<u8>) -> bool {
    p.len() >= 4 && 4 + read16(p, 0) * read16(p, 2) <= p.len()
}

/// The rows a complete grid payload describes.
pub open spec fn grid_rows_of(p: Seq<u8>) -> Seq<Seq<u8>> {
    let w = read16(p, 0);
    Seq::new(read16(p, 2) as nat, |r: int| p.subrange(4 + r * w, 4 + r * w + w))
}

/// Encodes a grid payload.
pub fn encode_arc_grid(grid: &ArcGrid) -> (out: Vec<u8>)
    ensures
        out@ == arc_grid_bytes(*grid),
{
    let mut out: Vec<u8> = Vec::new();
    put_u16(&mut out, (grid.width % 0x10000) as u16);
    put_u16(&mut out, (grid.height % 0x10000) as u16);
    let ghost head = out@;
    let ghost rows = grid@;
    let mut r: usize = 0;
    while r < grid.data.len()
        invariant
            rows == grid@,
            rows.len() == grid.data@.len(),
            0 <= r <= rows.len(),
            out@ == head + concat_all(rows.subrange(0, r as int)),
        decreases rows.len() - r,
    {
        let row = &grid.data[r];
        assert(row@ == rows[r as int]);
        let ghost before = out@;
        let mut c: usize = 0;
        while c < row.len()
            invariant
                0 <= c <= row@.len(),
                out@ == before + row@.subrange(0, c as int),
            decreases row@.len() - c,
        {
            out.push(row[c]);
            assert(out@ =~= before + row@.subrange(0, c + 1));
            c += 1;
        }
        proof {
            assert(row@.subrange(0, row@.len() as int) =~= row@);
            let next = rows.subrange(0, r + 1);
            assert(next.drop_last() =~= rows.subrange(0, r as int));
            assert(next.last() == row@);
            assert(out@ =~= head + concat_all(next));
        }
        r += 1;
    }
    assert(rows.subrange(0, rows.len() as int) =~= rows);
    out
}

/// Whether a grid payload is complete.
pub fn arc_grid_is_complete(p: &[u8]) -> (r: bool)
    ensures
        r == arc_grid_complete(p@),
{
    if p.len() < 4 {
        return false;
    }
    let w = get_u16(p, 0) as u64;
    let h = get_u16(p, 2) as u64;
    assert(w * h <= 0xffff * 0xffff) by (nonlinear_arith) requires w <= 0xffff, h <= 0xffff;
    4 + w * h <= p.len() as u64
}

/// Decodes a complete grid payload: the announced width and height, and the
/// cells row by row.
pub fn decode_arc_grid(buf: &[u8]) -> (g: ArcGrid)
    requires
        arc_grid_complete(buf@),
    ensures
        g.width == read16(buf@, 0),
        g.height == read16(buf@, 2),
        g@ == grid_rows_of(buf@),
        g.data@.len() == g.height,
{
    let ghost p = buf@;
    let width = get_u16(buf, 0) as usize;
    let height = get_u16(buf, 2) as usize;
    let n = buf.len();
    let mut data: Vec<Vec<u8>> = Vec::new();
    let mut r: usize = 0;
    let mut at: usize = 4;
    while r < height
        invariant
            p == buf@,
            n == p.len(),
            width == read16(p, 0),
            height == read16(p, 2),
            4 + width * height <= n,
            0 <= r <= height,
            at == 4 + r * width,
            data@.len() == r,
            forall|k: int| 0 <= k < r ==> #[trigger] data@[k]@ == grid_rows_of(p)[k],
        decreases height - r,
    {
        assert(at + width <= 4 + width * height) by (nonlinear_arith)
            requires at == 4 + r * width, r < height, width >= 0;
        let mut row: Vec<u8> = Vec::new();
        let mut c: usize = 0;
        while c < width
            invariant
                n == p.len(),
                p == buf@,
                at + width <= n,
                0 <= c <= width,
                row@ == p.subrange(at as int, at + c),
            decreases width - c,
        {
            row.push(buf[at + c]);
            assert(row@ =~= p.subrange(at as int, at + c + 1));
            c += 1;
        }
        assert(row@ == grid_rows_of(p)[r as int]);
        data.push(row);
        at = at + width;
        assert(at == 4 + (r + 1) * width) by (nonlinear_arith) requires at == 4 + r * width + width;
        r += 1;
    }
    let g = ArcGrid { data, width, height };
    assert(g@ =~= grid_rows_of(p)) by {
        assert forall|k: int| 0 <= k < g@.len() implies g@[k] == grid_rows_of(p)[k] by {
            assert(g@[k] == data@[k]@);
        }
    }
    g
}

/// The payload of a well-formed grid decodes to the same width, height and cells.
pub proof fn lemma_arc_grid_roundtrip(g: ArcGrid)
    requires
        g.wf(),
    ensures
        arc_grid_complete(arc_grid_bytes(g)),
        read16(arc_grid_bytes(g), 0) == g.width,
        read16(arc_grid_bytes(g), 2) == g.height,
        grid_rows_of(arc_grid_bytes(g)) == g@,
{
    let b = arc_grid_bytes(g);
    let rows = g@;
    let w = g.width as int;
    let h = g.height as int;
    assert(w * h == h * w) by (nonlinear_arith);
    lemma_le16_roundtrip(w);
    lemma_le16_roundtrip(h);
    lemma_concat_layout(rows, w);
    let cells = concat_all(rows);
    assert(b == le16(w) + le16(h) + cells);
    assert(read16(b, 0) == read16(le16(w), 0));
    assert(read16(b, 2) == read16(le16(h), 0));
    let d = grid_rows_of(b);
    assert(b.len() == 4 + h * w);
    assert(d.len() == h);
    assert forall|r: int| 0 <= r < h implies #[trigger] d[r] == rows[r] by {
        assert(r * w + w <= h * w) by (nonlinear_arith) requires 0 <= r < h, w >= 0;
        assert(0 <= r * w) by (nonlinear_arith) requires 0 <= r, w >= 0;
        assert(d[r] == b.subrange(4 + r * w, 4 + r * w + w));
        assert(rows[r].len() == w);
        assert forall|c: int| 0 <= c < w implies d[r][c] == rows[r][c] by {
            assert(d[r][c] == b[4 + r * w + c]);
            assert(b[4 + r * w + c] == cells[r * w + c]) by {
                assert(0 <= r * w + c < h * w) by (nonlinear_arith) requires 0 <= r < h, 0 <= c < w;
            }
        }
        assert(d[r] =~= rows[r]);
    }
    assert(d =~= rows);
}

// ---------------------------------------------------------------------------
// DVS event batches
// ---------------------------------------------------------------------------

/// The 7 bytes of a DVS event: x, y, polarity, then the timestamp.
pub open spec fn dvs_record(e: DvsEvent) -> Seq<u8> {
    seq![e.x, e.y, e.polarity] + le32(e.timestamp_us as int)
}

/// The payload of a batch: the event count (modulo 2^32), then one record per event.
pub open spec fn dvs_batch_bytes(s: Seq<DvsEvent>) -> Seq<u8> {
    le32((s.len() as int) % 0x1_0000_0000) + concat_all(s.map_values(|e: DvsEvent| dvs_record(e)))
}

/// The payload holds the count and every record it announces.
pub open spec fn dvs_batch_complete(p: Seq<u8>) -> bool {
    p.len() >= 4 && 4 + 7 * read32(p, 0) <= p.len()
}

/// Event `i` of a batch payload.
pub open spec fn decoded_dvs_event(p: Seq<u8>, i: int) -> DvsEvent {
    let at = 4 + 7 * i;
    DvsEvent { x: p[at], y: p[at + 1], polarity: p[at + 2], timestamp_us: read32(p, at + 3) as u32 }
}

/// Encodes a batch payload.
pub fn encode_dvs_batch(events: &[DvsEvent]) -> (out: Vec<u8>)
    ensures
        out@ == dvs_batch_bytes(events@),
{
    let mut out: Vec<u8> = Vec::new();
    put_u32(&mut out, low32(events.len()));
    let ghost head = out@;
    let ghost recs = events@.map_values(|e: DvsEvent| dvs_record(e));
    let mut i: usize = 0;
    while i < events.len()
        invariant
            recs == events@.map_values(|e: DvsEvent| dvs_record(e)),
            0 <= i <= events@.len(),
            out@ == head + concat_all(recs.subrange(0, i as int)),
        decreases events@.len() - i,
    {
        let e = events[i];
        let ghost before = out@;
        put_u8(&mut out, e.x);
        put_u8(&mut out, e.y);
        put_u8(&mut out, e.polarity);
        put_u32(&mut out, e.timestamp_us);
        proof {
            assert(out@ =~= before + dvs_record(e));
            let next = recs.subrange(0, i + 1);
            assert(next.drop_last() =~= recs.subrange(0, i as int));
            assert(next.last() == dvs_record(e));
        }
        i += 1;
    }
    assert(recs.subrange(0, recs.len() as int) =~= recs);
    out
}

/// Whether a batch payload is complete.
pub fn dvs_batch_is_complete(p: &[u8]) -> (r: bool)
    ensures
        r == dvs_batch_complete(p@),
{
    if p.len() < 4 {
        return false;
    }
    let n = get_u32(p, 0) as u64;
    7 * n + 4 <= p.len() as u64
}

/// Decodes a complete batch payload.
pub fn decode_dvs_batch(buf: &[u8]) -> (out: Vec<DvsEvent>)
    requires
        dvs_batch_complete(buf@),
    ensures
        out@.len() == read32(buf@, 0),
        forall|i: int| 0 <= i < out@.len() ==> #[trigger] out@[i] == decoded_dvs_event(buf@, i),
{
    let ghost p = buf@;
    let n = get_u32(buf, 0) as usize;
    let len = buf.len();
    let mut out: Vec<DvsEvent> = Vec::new();
    let mut i: usize = 0;
    let mut at: usize = 4;
    while i < n
        invariant
            p == buf@,
            len == p.len(),
            n == read32(p, 0),
            4 + 7 * n <= len,
            0 <= i <= n,
            at == 4 + 7 * i,
            out@.len() == i,
            forall|k: int| 0 <= k < i ==> #[trigger] out@[k] == decoded_dvs_event(p, k),
        decreases n - i,
    {
        let x = buf[at];
        let y = buf[at + 1];
        let polarity = buf[at + 2];
        let timestamp_us = get_u32(buf, at + 3);
        out.push(DvsEvent { x, y, polarity, timestamp_us });
        at = at + 7;
        i += 1;
    }
    out
}

/// The payload of a batch of fewer than 2^32 events decodes to the batch.
pub proof fn lemma_dvs_batch_roundtrip(s: Seq<DvsEvent>)
    requires
        s.len() < 0x1_0000_0000,
    ensures
        dvs_batch_complete(dvs_batch_bytes(s)),
        read32(dvs_batch_bytes(s), 0) == s.len(),
        forall|i: int| 0 <= i < s.len() ==> #[trigger] decoded_dvs_event(dvs_batch_bytes(s), i) == s[i],
{
    let b = dvs_batch_bytes(s);
    let n = s.len() as int;
    let recs = s.map_values(|e: DvsEvent| dvs_record(e));
    lemma_le32_roundtrip(n);
    assert forall|r: int| 0 <= r < recs.len() implies (#[trigger] recs[r]).len() == 7 by {
        assert(recs[r] == dvs_record(s[r]));
    }
    lemma_concat_layout(recs, 7);
    let cells = concat_all(recs);
    assert(b == le32(n) + cells);
    assert(read32(b, 0) == read32(le32(n), 0));
    assert forall|i: int| 0 <= i < n implies #[trigger] decoded_dvs_event(b, i) == s[i] by {
        let e = s[i];
        let at = 4 + 7 * i;
        assert(recs[i] == dvs_record(e));
        assert forall|c: int| 0 <= c < 7 implies b[at + c] == #[trigger] recs[i][c] by {
            assert(b[at + c] == cells[i * 7 + c]);
        }
        assert(b[at] == recs[i][0] && b[at + 1] == recs[i][1] && b[at + 2] == recs[i][2]);
        assert(b[at + 3] == recs[i][3] && b[at + 4] == recs[i][4] && b[at + 5] == recs[i][5] && b[at + 6] == recs[i][6]);
        lemma_read32_bytes(b, at + 3, e.timestamp_us as int);
    }
}

// ---------------------------------------------------------------------------
// DVS encoder settings
// ---------------------------------------------------------------------------

/// The 9-byte payload of encoder settings: window size, spikes per event,
/// largest delay, then 1 or 0 for the polarity flag.
pub open spec fn dvs_config_bytes(c: DvsEncoderConfig) -> Seq<u8> {
    le32(c.window_size_us as int) + le16(c.spikes_per_event as int) + le16(c.max_delay_ticks as int)
        + seq![if c.use_polarity { 1u8 } else { 0u8 }]
}

/// The settings a payload of at least 9 bytes describes; any non-zero flag
/// byte turns polarity channels on.
pub open spec fn decoded_dvs_config(p: Seq<u8>) -> DvsEncoderConfig {
    DvsEncoderConfig {
        window_size_us: read32(p, 0) as u32,
        spikes_per_event: read16(p, 4) as u16,
        max_delay_ticks: read16(p, 6) as u16,
        use_polarity: p[8] != 0,
    }
}

/// Encodes encoder settings.
pub fn encode_dvs_config(c: &DvsEncoderConfig) -> (out: Vec<u8>)
    ensures
        out@ == dvs_config_bytes(*c),
{
    let mut out: Vec<u8> = Vec::new();
    put_u32(&mut out, c.window_size_us);
    put_u16(&mut out, c.spikes_per_event);
    put_u16(&mut out, c.max_delay_ticks);
    put_u8(&mut out, if c.use_polarity { 1 } else { 0 });
    assert(out@ =~= dvs_config_bytes(*c));
    out
}

/// Decodes encoder settings from a payload of at least 9 bytes.
pub fn decode_dvs_config(buf: &[u8]) -> (c: DvsEncoderConfig)
    requires
        buf@.len() >= 9,
    ensures
        c == decoded_dvs_config(buf@),
{
    DvsEncoderConfig {
        window_size_us: get_u32(buf, 0),
        spikes_per_event: get_u16(buf, 4),
        max_delay_ticks: get_u16(buf, 6),
        use_polarity: buf[8] != 0,
    }
}

/// Encoder settings survive encoding and decoding.
pub proof fn lemma_dvs_config_roundtrip(c: DvsEncoderConfig)
    ensures
        dvs_config_bytes(c).len() == 9,
        decoded_dvs_config(dvs_config_bytes(c)) == c,
{
    let b = dvs_config_bytes(c);
    lemma_read32_bytes(b, 0, c.window_size_us as int);
    lemma_read16_bytes(b, 4, c.spikes_per_event as int);
    lemma_read16_bytes(b, 6, c.max_delay_ticks as int);
}

// ---------------------------------------------------------------------------
// Conversation turns
// ---------------------------------------------------------------------------

/// The payload of a conversation turn, given the UTF-8 bytes of its role and
/// text: the role length (modulo 2^16) as 16 bits, the role, the text length
/// (modulo 2^32) as 32 bits, the text, then the timestamp as 64 bits.
#[verifier::opaque]
pub open spec fn turn_bytes(role: Seq<u8>, text: Seq<u8>, timestamp: u64) -> Seq<u8> {
    le16((role.len() as int) % 0x10000) + role + le32((text.len() as int) % 0x1_0000_0000) + text
        + le64(timestamp as int)
}

/// Where the text length of a turn payload sits: after the role.
pub open spec fn turn_text_at(p: Seq<u8>) -> int {
    2 + read16(p, 0)
}

/// The payload holds both lengths, the bytes they announce and the timestamp.
pub open spec fn turn_complete(p: Seq<u8>) -> bool {
    &&& p.len() >= 2
    &&& turn_text_at(p) + 4 <= p.len()
    &&& turn_text_at(p) + 4 + read32(p, turn_text_at(p)) + 8 <= p.len()
}

/// The role bytes, text bytes and timestamp of a complete turn payload.
pub open spec fn decoded_turn(p: Seq<u8>) -> (Seq<u8>, Seq<u8>, u64) {
    let a = turn_text_at(p);
    let t = read32(p, a);
    (p.subrange(2, a), p.subrange(a + 4, a + 4 + t), read64(p, a + 4 + t) as u64)
}

/// Appends bytes.
fn append_bytes(out: &mut Vec<u8>, bytes: &[u8])
    ensures
        final(out)@ == old(out)@ + bytes@,
{
    let ghost start = out@;
    let mut i: usize = 0;
    while i < bytes.len()
        invariant
            0 <= i <= bytes@.len(),
            out@ == start + bytes@.subrange(0, i as int),
        decreases bytes@.len() - i,
    {
        out.push(bytes[i]);
        assert(out@ =~= start + bytes@.subrange(0, i + 1));
        i += 1;
    }
    assert(bytes@.subrange(0, bytes@.len() as int) =~= bytes@);
}

/// The `len` bytes of `buf` from `at`.
fn copy_range(buf: &[u8], at: usize, len: usize) -> (r: Vec<u8>)
    requires
        at + len <= buf@.len(),
    ensures
        r@ == buf@.subrange(at as int, at + len),
{
    let n = buf.len();
    let mut r: Vec<u8> = Vec::new();
    let mut i: usize = 0;
    while i < len
        invariant
            n == buf@.len(),
            at + len <= n,
            0 <= i <= len,
            r@ == buf@.subrange(at as int, at + i),
        decreases len - i,
    {
        r.push(buf[at + i]);
        assert(r@ =~= buf@.subrange(at as int, at + i + 1));
        i += 1;
    }
    r
}

/// Encodes a conversation turn from the UTF-8 bytes of its role and text.
pub fn encode_conversation_turn(role: &[u8], text: &[u8], timestamp: u64) -> (out: Vec<u8>)
    ensures
        out@ == turn_bytes(role@, text@, timestamp),
{
    let mut out: Vec<u8> = Vec::new();
    put_u16(&mut out, (role.len() % 0x10000) as u16);
    append_bytes(&mut out, role);
    put_u32(&mut out, low32(text.len()));
    append_bytes(&mut out, text);
    put_u64(&mut out, timestamp);
    assert(out@ =~= turn_bytes(role@, text@, timestamp)) by {
        reveal(turn_bytes);
    }
    out
}

/// Whether a conversation turn payload is complete.
pub fn conversation_turn_is_complete(p: &[u8]) -> (r: bool)
    ensures
        r == turn_complete(p@),
{
    if p.len() < 2 {
        return false;
    }
    let a = 2 + get_u16(p, 0) as usize;
    if a + 4 > p.len() {
        return false;
    }
    let t = get_u32(p, a) as u64;
    (a as u64) + 4 + t + 8 <= p.len() as u64
}

/// Decodes a complete conversation turn payload into its role bytes, text
/// bytes and timestamp.
pub fn decode_conversation_turn(buf: &[u8]) -> (r: (Vec<u8>, Vec<u8>, u64))
    requires
        turn_complete(buf@),
    ensures
        (r.0@, r.1@, r.2) == decoded_turn(buf@),
{
    let a = 2 + get_u16(buf, 0) as usize;
    let role = copy_range(buf, 2, a - 2);
    let t = get_u32(buf, a) as usize;
    let n = buf.len();
    assert(a + 4 + t + 8 <= n);
    let text = copy_range(buf, a + 4, t);
    let timestamp = get_u64(buf, a + 4 + t);
    (role, text, timestamp)
}

/// Where the fields of a turn payload lie, for any field bytes.
proof fn lemma_turn_layout(h16: Seq<u8>, role: Seq<u8>, h32: Seq<u8>, text: Seq<u8>, h64: Seq<u8>)
    requires
        h16.len() == 2,
        h32.len() == 4,
        h64.len() == 8,
    ensures
        ({
            let b = h16 + role + h32 + text + h64;
            let r = role.len() as int;
            let t = text.len() as int;
            &&& b.len() == 14 + r + t
            &&& read16(b, 0) == read16(h16, 0)
            &&& read32(b, 2 + r) == read32(h32, 0)
            &&& read64(b, 6 + r + t) == read64(h64, 0)
            &&& b.subrange(2, 2 + r) == role
            &&& b.subrange(6 + r, 6 + r + t) == text
        }),
{
    let b = h16 + role + h32 + text + h64;
    let r = role.len() as int;
    let t = text.len() as int;
    let q = 6 + r + t;
    assert(b[0] == h16[0] && b[1] == h16[1]);
    assert(b[2 + r] == h32[0] && b[3 + r] == h32[1] && b[4 + r] == h32[2] && b[5 + r] == h32[3]);
    assert(b[q] == h64[0] && b[q + 1] == h64[1] && b[q + 2] == h64[2] && b[q + 3] == h64[3]);
    assert(b[q + 4] == h64[4] && b[q + 5] == h64[5] && b[q + 6] == h64[6] && b[q + 7] == h64[7]);
    assert(b.subrange(2, 2 + r) =~= role);
    assert(b.subrange(6 + r, 6 + r + t) =~= text);
}

/// A turn whose role is shorter than 2^16 bytes and whose text is shorter
/// than 2^32 bytes decodes to its role, text and timestamp.
#[verifier::spinoff_prover]
pub proof fn lemma_conversation_turn_roundtrip(role: Seq<u8>, text: Seq<u8>, timestamp: u64)
    requires
        role.len() < 0x10000,
        text.len() < 0x1_0000_0000,
    ensures
        turn_complete(turn_bytes(role, text, timestamp)),
        decoded_turn(turn_bytes(role, text, timestamp)) == (role, text, timestamp),
{
    let r = role.len() as int;
    let t = text.len() as int;
    lemma_le16_roundtrip(r);
    lemma_le32_roundtrip(t);
    lemma_le64_roundtrip(timestamp as int);
    let h16 = le16(r);
    let h32 = le32(t);
    let h64 = le64(timestamp as int);
    assert(turn_bytes(role, text, timestamp) == h16 + role + h32 + text + h64) by {
        reveal(turn_bytes);
    }
    lemma_turn_layout(h16, role, h32, text, h64);
}

// ---------------------------------------------------------------------------
// Where each field lies
// ---------------------------------------------------------------------------

/// A grid payload: the width as 16 bits at offset 0, the height at offset
/// 2, then cell `(i, j)` at offset `4 + i * width + j`.
pub proof fn lemma_arc_grid_layout(g: ArcGrid)
    requires
        g.wf(),
    ensures
        ({
            let b = arc_grid_bytes(g);
            let w = g.width as int;
            let h = g.height as int;
            &&& b.len() == 4 + h * w
            &&& read16(b, 0) == w
            &&& read16(b, 2) == h
            &&& forall|i: int, j: int| 0 <= i < h && 0 <= j < w ==> #[trigger] b[4 + i * w + j] == g@[i][j]
        }),
{
    let b = arc_grid_bytes(g);
    let w = g.width as int;
    let h = g.height as int;
    lemma_arc_grid_roundtrip(g);
    assert forall|r: int| 0 <= r < g@.len() implies (#[trigger] g@[r]).len() == w by {}
    lemma_concat_layout(g@, w);
    let head = le16(w % 0x10000) + le16(h % 0x10000);
    assert(b == head + concat_all(g@));
    assert(head.len() == 4);
    assert forall|i: int, j: int| 0 <= i < h && 0 <= j < w implies #[trigger] b[4 + i * w + j] == g@[i][j] by {
        assert(0 <= i * w + j < h * w) by (nonlinear_arith) requires 0 <= i < h, 0 <= j < w;
        assert(g@.len() == h);
        assert(concat_all(g@).len() == h * w);
        assert(b[4 + i * w + j] == concat_all(g@)[i * w + j]);
    }
}

/// A DVS batch payload: the count as 32 bits at offset 0, then event `i` at
/// offset `4 + 7i`: x, y and polarity bytes, then the timestamp as 32 bits.
pub proof fn lemma_dvs_batch_layout(s: Seq<DvsEvent>)
    requires
        s.len() < 0x1_0000_0000,
    ensures
        ({
            let b = dvs_batch_bytes(s);
            &&& b.len() == 4 + 7 * s.len()
            &&& read32(b, 0) == s.len()
            &&& forall|i: int| #![trigger s[i]] 0 <= i < s.len() ==> b[4 + 7 * i] == s[i].x && b[4 + 7 * i + 1] == s[i].y
                && b[4 + 7 * i + 2] == s[i].polarity && read32(b, 4 + 7 * i + 3) == s[i].timestamp_us
        }),
{
    let b = dvs_batch_bytes(s);
    let n = s.len() as int;
    let recs = s.map_values(|e: DvsEvent| dvs_record(e));
    lemma_le32_roundtrip(n);
    assert forall|r: int| 0 <= r < recs.len() implies (#[trigger] recs[r]).len() == 7 by {}
    lemma_concat_layout(recs, 7);
    assert(b == le32(n) + concat_all(recs));
    assert(b[0] == le32(n)[0] && b[1] == le32(n)[1] && b[2] == le32(n)[2] && b[3] == le32(n)[3]);
    assert forall|i: int| #![trigger s[i]] 0 <= i < s.len() implies b[4 + 7 * i] == s[i].x && b[4 + 7 * i + 1] == s[i].y
        && b[4 + 7 * i + 2] == s[i].polarity && read32(b, 4 + 7 * i + 3) == s[i].timestamp_us by {
        let rec = recs[i];
        assert(rec == dvs_record(s[i]));
        assert forall|c: int| 0 <= c < 7 implies b[4 + 7 * i + c] == #[trigger] rec[c] by {
            assert(recs[i][c] == concat_all(recs)[i * 7 + c]);
        }
        assert(b[4 + 7 * i] == rec[0] && b[4 + 7 * i + 1] == rec[1] && b[4 + 7 * i + 2] == rec[2]);
        assert(b[4 + 7 * i + 3] == rec[3] && b[4 + 7 * i + 4] == rec[4] && b[4 + 7 * i + 5] == rec[5] && b[4 + 7 * i + 6] == rec[6]);
        assert(4 + 7 * i + 7 <= b.len()) by (nonlinear_arith) requires 0 <= i < n, b.len() == 4 + 7 * n;
        lemma_read32_bytes(b, 4 + 7 * i + 3, s[i].timestamp_us as int);
    }
}

/// An encoder settings payload: the window size as 32 bits at offset 0, the
/// spikes per event as 16 bits at 4, the largest delay as 16 bits at 6, and
/// at 8 the byte 1 for polarity channels, 0 without.
pub proof fn lemma_dvs_config_layout(c: DvsEncoderConfig)
    ensures
        ({
            let b = dvs_config_bytes(c);
            &&& b.len() == 9
            &&& read32(b, 0) == c.window_size_us
            &&& read16(b, 4) == c.spikes_per_event
            &&& read16(b, 6) == c.max_delay_ticks
            &&& b[8] == (if c.use_polarity { 1u8 } else { 0u8 })
        }),
{
    let b = dvs_config_bytes(c);
    lemma_read32_bytes(b, 0, c.window_size_us as int);
    lemma_read16_bytes(b, 4, c.spikes_per_event as int);
    lemma_read16_bytes(b, 6, c.max_delay_ticks as int);
}

/// A conversation turn payload: the role length as 16 bits at offset 0, the
/// role's bytes from 2, the text length as 32 bits right after them, the
/// text's bytes, then the timestamp as 64 bits.
#[verifier::spinoff_prover]
#[verifier::rlimit(50)]
pub proof fn lemma_conversation_turn_layout(role: Seq<u8>, text: Seq<u8>, timestamp: u64)
    requires
        role.len() < 0x10000,
        text.len() < 0x1_0000_0000,
    ensures
        ({
            let b = turn_bytes(role, text, timestamp);
            let r = role.len() as int;
            let t = text.len() as int;
            &&& b.len() == 14 + r + t
            &&& read16(b, 0) == r
            &&& b.subrange(2, 2 + r) == role
            &&& read32(b, 2 + r) == t
            &&& b.subrange(6 + r, 6 + r + t) == text
            &&& read64(b, 6 + r + t) == timestamp
        }),
{
    let r = role.len() as int;
    let t = text.len() as int;
    lemma_le16_roundtrip(r);
    lemma_le32_roundtrip(t);
    lemma_le64_roundtrip(timestamp as int);
    let h16 = le16(r);
    let h32 = le32(t);
    let h64 = le64(timestamp as int);
    assert(turn_bytes(role, text, timestamp) == h16 + role + h32 + text + h64) by {
        reveal(turn_bytes);
    }
    lemma_turn_layout(h16, role, h32, text, h64);
}

/// A spike stream payload: the count as 32 bits at offset 0, then event `i`
/// in the 12 bytes from `4 + 12i`: the change of source from the previous
/// event (from 0 for the first) as 16 bits, the destination as 32 bits, the
/// delay as 16 bits, the amplitude and flag bytes, and two zero bytes.
pub proof fn lemma_spike_stream_layout(s: Seq<SpikeEvent>)
    requires
        stream_fits(s),
    ensures
        ({
            let b = spike_stream_bytes(s);
            &&& b.len() == 4 + 12 * s.len()
            &&& read32(b, 0) == s.len()
            &&& forall|i: int| #![trigger s[i]] 0 <= i < s.len() ==> {
                let at = 4 + 12 * i;
                &&& read16(b, at) == (src32(s[i]) - prev_src32(s, i)) % 0x10000
                &&& read32(b, at + 2) == s[i].dst.0
                &&& read16(b, at + 6) == s[i].delay_ticks
                &&& b[at + 8] == s[i].amplitude_u8
                &&& b[at + 9] == s[i].flags
                &&& b[at + 10] == 0 && b[at + 11] == 0
            }
        }),
{
    let b = spike_stream_bytes(s);
    let n = s.len() as int;
    lemma_le32_roundtrip(n);
    if n == 0 {
        reveal(spike_records);
        assert(b =~= le32(0));
    } else {
        assert(b == encoded_spikes(s)) by {
            reveal(encoded_spikes);
        }
        lemma_record_bytes(s, 0);
        assert(b[0] == le32(n)[0] && b[1] == le32(n)[1] && b[2] == le32(n)[2] && b[3] == le32(n)[3]) by {
            reveal(encoded_spikes);
        }
        assert forall|i: int| #![trigger s[i]] 0 <= i < s.len() implies {
            let at = 4 + 12 * i;
            &&& read16(b, at) == (src32(s[i]) - prev_src32(s, i)) % 0x10000
            &&& read32(b, at + 2) == s[i].dst.0
            &&& read16(b, at + 6) == s[i].delay_ticks
            &&& b[at + 8] == s[i].amplitude_u8
            &&& b[at + 9] == s[i].flags
            &&& b[at + 10] == 0 && b[at + 11] == 0
        } by {
            assert(s[i].dst.0 < 0x1_0000_0000);
            lemma_spike_record_fields(s, i);
        }
    }
}

/// The fields of record `i` of a spike packet, read at their offsets.
#[verifier::spinoff_prover]
#[verifier::rlimit(100)]
proof fn lemma_spike_record_fields(s: Seq<SpikeEvent>, i: int)
    requires
        0 <= i < s.len(),
        s[i].dst.0 < 0x1_0000_0000,
    ensures
        ({
            let b = encoded_spikes(s);
            let at = 4 + 12 * i;
            &&& read16(b, at) == (src32(s[i]) - prev_src32(s, i)) % 0x10000
            &&& read32(b, at + 2) == s[i].dst.0
            &&& read16(b, at + 6) == s[i].delay_ticks
            &&& b[at + 8] == s[i].amplitude_u8
            &&& b[at + 9] == s[i].flags
            &&& b[at + 10] == 0 && b[at + 11] == 0
        }),
{
    let b = encoded_spikes(s);
    let n = s.len() as int;
    let at = 4 + 12 * i;
    let d = (src32(s[i]) - prev_src32(s, i)) % 0x10000;
    let t = dst32(s[i]);
    let y = s[i].delay_ticks as int;
    lemma_record_bytes(s, i);
    let rec = spike_record(s, i);
    assert(rec == seq![byte_of(d, 0), byte_of(d, 1), byte_of(t, 0), byte_of(t, 1), byte_of(t, 2), byte_of(t, 3),
        byte_of(y, 0), byte_of(y, 1), s[i].amplitude_u8, s[i].flags, 0u8, 0u8]) by {
        reveal(spike_record);
    }
    assert(b[at] == rec[0] && b[at + 1] == rec[1] && b[at + 2] == rec[2] && b[at + 3] == rec[3]);
    assert(b[at + 4] == rec[4] && b[at + 5] == rec[5] && b[at + 6] == rec[6] && b[at + 7] == rec[7]);
    assert(b[at + 8] == rec[8] && b[at + 9] == rec[9] && b[at + 10] == rec[10] && b[at + 11] == rec[11]);
    assert(at + 12 <= b.len()) by (nonlinear_arith) requires 0 <= i < n, b.len() == 4 + 12 * n, at == 4 + 12 * i;
    lemma_read16_bytes(b, at, d);
    lemma_read32_bytes(b, at + 2, t);
    lemma_read16_bytes(b, at + 6, y);
}

} // verus!
