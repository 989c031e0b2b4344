use goldworm::datatype::{decode_frame, encode_frame, type_tag_name, FrameError, TypeTag};
use goldworm::dvs::{DvsEncoderConfig, DvsEvent};
use goldworm::grid::ArcGrid;
use goldworm::payload::{arc_grid_is_complete, decode_arc_grid, decode_dvs_batch, decode_dvs_config,
    decode_spike_stream, dvs_batch_is_complete, encode_arc_grid, encode_dvs_batch, encode_dvs_config,
    encode_spike_stream, spike_buffer_events, spike_stream_is_complete};
use goldworm::substrate::{NeuronIdx, SpikeBuffer, SpikeEvent};

#[test]
fn tags_and_names() {
    for b in 0x01..=0x10u8 {
        let tag = TypeTag::try_from(b).unwrap();
        assert_eq!(tag.as_byte(), b);
        assert_eq!(TypeTag::from_byte(b), Some(tag));
    }
    assert_eq!(TypeTag::try_from(0x11u8), Err("Unknown type tag: 0x11".to_string()));
    assert_eq!(TypeTag::try_from(0xABu8), Err("Unknown type tag: 0xAB".to_string()));
    assert_eq!(TypeTag::try_from_byte(0), Err("Unknown type tag: 0x00".to_string()));
    assert_eq!(type_tag_name(TypeTag::ShdCcpSparse), "SHDCCP");
    assert_eq!(type_tag_name(TypeTag::ArcGrid), "ArcGrid");
    assert_eq!(type_tag_name(TypeTag::ConversationTurn), "ConversationTurn");
}

#[test]
fn frame_layout_and_roundtrip() {
    let f = encode_frame(TypeTag::ArcGrid, &[9, 8, 7]);
    assert_eq!(f, vec![b'S', b'H', b'D', b'1', 2, 0x05, 0, 0, 3, 0, 0, 0, 9, 8, 7]);
    assert_eq!(decode_frame(&f), Ok((TypeTag::ArcGrid, vec![9, 8, 7])));
    let empty = encode_frame(TypeTag::SpikeStream, &[]);
    assert_eq!(decode_frame(&empty), Ok((TypeTag::SpikeStream, vec![])));
}

#[test]
fn frame_trailing_bytes_are_ignored() {
    let mut f = encode_frame(TypeTag::Quaternion, &[1, 2]);
    f.push(77);
    assert_eq!(decode_frame(&f), Ok((TypeTag::Quaternion, vec![1, 2])));
}

#[test]
fn frame_errors() {
    assert_eq!(decode_frame(&[0u8; 4]), Err(FrameError::TooShort));
    assert_eq!(decode_frame(&[0u8; 10]), Err(FrameError::TooShort));
    assert_eq!(decode_frame(&[0u8; 12]), Err(FrameError::BadMagic));
    let mut f = encode_frame(TypeTag::MoAIndex, &[1, 2, 3]);
    f[4] = 3;
    assert_eq!(decode_frame(&f), Err(FrameError::BadVersion(3)));
    f[4] = 2;
    f[5] = 0x42;
    assert_eq!(decode_frame(&f), Err(FrameError::UnknownTag(0x42)));
    f[5] = 0x0C;
    f.pop();
    assert_eq!(decode_frame(&f), Err(FrameError::Truncated));
}

#[test]
fn frame_error_messages() {
    assert_eq!(FrameError::TooShort.message(), "Buffer too short for SHD-CCP header");
    assert_eq!(FrameError::BadMagic.message(), "Invalid magic bytes (expected SHD1)");
    assert_eq!(FrameError::BadVersion(7).message(), "Unsupported version: 7");
    assert_eq!(FrameError::UnknownTag(0x2a).message(), "Unknown type tag: 0x2A");
    assert_eq!(FrameError::Truncated.message(), "Payload truncated");
}

#[test]
fn spike_stream_roundtrip() {
    let spikes = vec![
        SpikeEvent { src: NeuronIdx(0), dst: NeuronIdx(10), delay_ticks: 3, amplitude_u8: 200, flags: 0 },
        SpikeEvent { src: NeuronIdx(5), dst: NeuronIdx(20), delay_ticks: 1, amplitude_u8: 100, flags: 1 },
    ];
    let payload = encode_spike_stream(&spikes);
    let frame = encode_frame(TypeTag::SpikeStream, &payload);
    let (tag, body) = decode_frame(&frame).unwrap();
    assert_eq!(tag, TypeTag::SpikeStream);
    assert!(spike_stream_is_complete(&body));
    assert_eq!(decode_spike_stream(&body), spikes);
}

#[test]
fn empty_spike_stream_roundtrip() {
    let payload = encode_spike_stream(&[]);
    assert_eq!(payload, vec![0, 0, 0, 0]);
    assert!(spike_stream_is_complete(&payload));
    assert!(decode_spike_stream(&payload).is_empty());
}

#[test]
fn incomplete_payloads_are_detected() {
    assert!(!spike_stream_is_complete(&[1, 0, 0]));
    assert!(!spike_stream_is_complete(&[1, 0, 0, 0, 1, 2]));
    assert!(!arc_grid_is_complete(&[2, 0, 2, 0, 1, 1, 1]));
    assert!(!dvs_batch_is_complete(&[1, 0, 0, 0, 1]));
}

#[test]
fn spike_buffer_becomes_a_stream() {
    let buf = SpikeBuffer { indices: vec![4, 2], count: 10 };
    let events = spike_buffer_events(&buf);
    assert_eq!(events, vec![
        SpikeEvent { src: NeuronIdx(4), dst: NeuronIdx(4), delay_ticks: 0, amplitude_u8: 255, flags: 0 },
        SpikeEvent { src: NeuronIdx(2), dst: NeuronIdx(2), delay_ticks: 0, amplitude_u8: 255, flags: 0 },
    ]);
}

#[test]
fn arc_grid_roundtrip() {
    let grid = ArcGrid::from_data(vec![vec![0, 1, 2], vec![3, 4, 5]]).unwrap();
    let payload = encode_arc_grid(&grid);
    assert_eq!(payload, vec![3, 0, 2, 0, 0, 1, 2, 3, 4, 5]);
    assert!(arc_grid_is_complete(&payload));
    let g = decode_arc_grid(&payload);
    assert_eq!(g.width, grid.width);
    assert_eq!(g.height, grid.height);
    assert_eq!(g.data, grid.data);
}

#[test]
fn dvs_batch_roundtrip() {
    let events = vec![DvsEvent::new(1, 2, 1, 0x0A0B0C0D), DvsEvent::new(127, 0, 0, 7)];
    let payload = encode_dvs_batch(&events);
    assert_eq!(payload.len(), 4 + 2 * 7);
    assert_eq!(&payload[0..11], &[2, 0, 0, 0, 1, 2, 1, 0x0D, 0x0C, 0x0B, 0x0A]);
    assert!(dvs_batch_is_complete(&payload));
    assert_eq!(decode_dvs_batch(&payload), events);
}

#[test]
fn dvs_config_roundtrip() {
    let c = DvsEncoderConfig { window_size_us: 70000, spikes_per_event: 3, max_delay_ticks: 300, use_polarity: false };
    let payload = encode_dvs_config(&c);
    assert_eq!(payload, vec![0x70, 0x11, 0x01, 0x00, 3, 0, 0x2C, 0x01, 0]);
    assert_eq!(decode_dvs_config(&payload), c);
    let mut on = payload.clone();
    on[8] = 5;
    assert!(decode_dvs_config(&on).use_polarity);
}

#[test]
fn decode_invalid_magic_returns_err() {
    let buf = [0u8; 4];
    let res = decode_frame(&buf);
    assert!(res.is_err());
}

#[test]
fn decode_truncated_header_returns_err() {
    let buf = [0u8; 10];
    let res = decode_frame(&buf);
    assert!(res.is_err());
}
