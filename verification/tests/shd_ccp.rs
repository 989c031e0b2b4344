use goldworm::shd_ccp::{encode_spikes, decode_spikes, low32};
use goldworm::substrate::{NeuronIdx, SpikeEvent};

fn make_evt(src: usize, dst: usize, amp: u8) -> SpikeEvent {
    SpikeEvent {
        src: NeuronIdx(src),
        dst: NeuronIdx(dst),
        delay_ticks: 3,
        amplitude_u8: amp,
        flags: 0,
    }
}

#[test]
fn shd_ccp_encode_decode_roundtrip() {
    let spikes = vec![
        make_evt(0, 10, 200),
        make_evt(1, 20, 100),
        make_evt(5, 30, 50),
        make_evt(100, 40, 10),
    ];
    let payload = encode_spikes(&spikes);
    let decoded = decode_spikes(&payload);
    assert_eq!(decoded.len(), spikes.len());
    for (orig, dec) in spikes.iter().zip(decoded.iter()) {
        assert_eq!(orig.src, dec.src);
        assert_eq!(orig.dst, dec.dst);
        assert_eq!(orig.amplitude_u8, dec.amplitude_u8);
    }
}

#[test]
fn decode_truncated_payload_does_not_panic() {
    let spikes = vec![make_evt(1, 2, 128)];
    let mut payload = encode_spikes(&spikes);
    payload.truncate(payload.len() - 3);
    let decoded = decode_spikes(&payload);
    assert!(decoded.len() <= spikes.len());
}

#[test]
fn encode_empty_slice() {
    let payload = encode_spikes(&[]);
    assert!(payload.is_empty());
}

#[test]
fn packet_layout_is_little_endian_with_source_deltas() {
    let spikes = vec![
        SpikeEvent { src: NeuronIdx(7), dst: NeuronIdx(0x0102_0304), delay_ticks: 0x0506, amplitude_u8: 9, flags: 1 },
        SpikeEvent { src: NeuronIdx(3), dst: NeuronIdx(1), delay_ticks: 2, amplitude_u8: 255, flags: 0 },
    ];
    let p = encode_spikes(&spikes);
    assert_eq!(p.len(), 4 + 12 * 2);
    assert_eq!(&p[0..4], &[2, 0, 0, 0]);
    assert_eq!(&p[4..16], &[7, 0, 4, 3, 2, 1, 6, 5, 9, 1, 0, 0]);
    // 3 - 7 modulo 2^16
    assert_eq!(&p[16..18], &[0xFC, 0xFF]);
    let back = decode_spikes(&p);
    assert_eq!(back[0], spikes[0]);
    // a falling source is carried as a 16-bit delta and comes back 7 + 0xFFFC
    assert_eq!(back[1].src, NeuronIdx(0x1_0003));
    assert_eq!(back[1].dst, spikes[1].dst);
}

#[test]
fn decoding_stops_at_the_announced_count_or_the_last_whole_record() {
    let spikes = vec![make_evt(1, 2, 3), make_evt(4, 5, 6)];
    let mut p = encode_spikes(&spikes);
    p[0] = 1;
    assert_eq!(decode_spikes(&p), vec![make_evt(1, 2, 3)]);
    p[0] = 9;
    assert_eq!(decode_spikes(&p).len(), 2);
    assert!(decode_spikes(&[1, 0]).is_empty());
}

#[test]
fn low32_keeps_the_low_bits() {
    assert_eq!(low32(5), 5);
    assert_eq!(low32(u32::MAX as usize), u32::MAX);
}
