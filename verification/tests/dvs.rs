use goldworm::dvs::{DvsEvent, DvsEncoder, DvsEncoderConfig, neuron_for_event, sort_by_timestamp,
    timestamp_range, window_spikes};
use goldworm::substrate::{NeuronIdx, SpikeEvent};

#[test]
fn dvs_event_neuron_index() {
    let event = DvsEvent::new(10, 20, 1, 1000);
    let expected = 1 * 128 * 128 + 20 * 128 + 10;
    assert_eq!(event.neuron_index(), expected);
}

#[test]
fn dvs_event_neuron_index_no_polarity() {
    let event = DvsEvent::new(10, 20, 0, 1000);
    let idx = event.neuron_index();
    assert_eq!(idx, 0 * 128 * 128 + 20 * 128 + 10);
}

#[test]
fn default_config_values() {
    let c = DvsEncoderConfig::default();
    assert_eq!(c.window_size_us, 1000);
    assert_eq!(c.spikes_per_event, 1);
    assert_eq!(c.max_delay_ticks, 10);
    assert!(c.use_polarity);
}

#[test]
fn feeding_collects_events_and_moves_the_window() {
    let mut enc = DvsEncoder::new();
    assert_eq!(enc.pending_events(), 0);
    enc.feed_event(DvsEvent::new(1, 1, 0, 500));
    assert_eq!(enc.window_base_us(), 0);
    enc.feed_event(DvsEvent::new(1, 1, 0, 1000));
    assert_eq!(enc.window_base_us(), 1000);
    enc.feed_event(DvsEvent::new(1, 1, 0, 1999));
    assert_eq!(enc.window_base_us(), 1000);
    assert_eq!(enc.pending_events(), 3);
    let taken = enc.take_pending();
    assert_eq!(taken.len(), 3);
    assert_eq!(taken[2].timestamp_us, 1999);
    assert_eq!(enc.pending_events(), 0);
    assert_eq!(enc.window_base_us(), 1000);
    enc.feed_event(DvsEvent::new(1, 1, 0, 5));
    enc.reset();
    assert_eq!(enc.pending_events(), 0);
    assert_eq!(enc.window_base_us(), 0);
}

#[test]
fn config_is_kept() {
    let c = DvsEncoderConfig { window_size_us: 50, spikes_per_event: 3, max_delay_ticks: 4, use_polarity: false };
    let enc = DvsEncoder::with_config(c);
    assert_eq!(enc.config(), c);
}

#[test]
fn sorting_is_stable_by_timestamp() {
    let events = vec![
        DvsEvent::new(1, 0, 0, 30),
        DvsEvent::new(2, 0, 0, 10),
        DvsEvent::new(3, 0, 0, 30),
        DvsEvent::new(4, 0, 0, 10),
        DvsEvent::new(5, 0, 0, 20),
    ];
    let sorted = sort_by_timestamp(&events);
    let xs: Vec<u8> = sorted.iter().map(|e| e.x).collect();
    assert_eq!(xs, vec![2, 4, 5, 1, 3]);
    assert!(sort_by_timestamp(&[]).is_empty());
}

#[test]
fn window_spikes_repeat_each_event() {
    let config = DvsEncoderConfig { window_size_us: 1000, spikes_per_event: 2, max_delay_ticks: 10, use_polarity: false };
    let events = vec![DvsEvent::new(3, 1, 1, 0), DvsEvent::new(0, 2, 0, 9)];
    let spikes = window_spikes(&config, &events, &[0, 7]);
    let n0 = NeuronIdx(1 * 128 + 3);
    let n1 = NeuronIdx(2 * 128);
    let s0 = SpikeEvent { src: n0, dst: n0, delay_ticks: 0, amplitude_u8: 255, flags: 0 };
    let s1 = SpikeEvent { src: n1, dst: n1, delay_ticks: 7, amplitude_u8: 255, flags: 0 };
    assert_eq!(spikes, vec![s0, s0, s1, s1]);
}

#[test]
fn polarity_setting_picks_the_neuron() {
    let e = DvsEvent::new(10, 20, 1, 0);
    let with = DvsEncoderConfig::default();
    let without = DvsEncoderConfig { use_polarity: false, ..with };
    assert_eq!(neuron_for_event(&with, &e), 16384 + 20 * 128 + 10);
    assert_eq!(neuron_for_event(&without, &e), 20 * 128 + 10);
}

#[test]
fn distinct_pixels_get_distinct_neurons() {
    let mut seen = std::collections::HashSet::new();
    for p in 0..2u8 {
        for y in (0..128u8).step_by(7) {
            for x in (0..128u8).step_by(5) {
                let n = DvsEvent::new(x, y, p, 0).neuron_index();
                assert!(n < 32768);
                assert_eq!(p == 0, n < 16384);
                assert!(seen.insert(n));
            }
        }
    }
}

#[test]
fn timestamp_range_finds_extremes() {
    assert_eq!(timestamp_range(&[]), None);
    let events = vec![DvsEvent::new(0, 0, 0, 40), DvsEvent::new(0, 0, 0, 5), DvsEvent::new(0, 0, 0, 90)];
    assert_eq!(timestamp_range(&events), Some((5, 90)));
}
