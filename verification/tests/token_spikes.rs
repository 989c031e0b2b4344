use goldworm::substrate::{NeuronIdx, SpikeEvent};
use goldworm::token_spikes::{sentence_spikes, word_spikes};

fn spike(n: usize, delay: u16) -> SpikeEvent {
    SpikeEvent { src: NeuronIdx(n), dst: NeuronIdx(n), delay_ticks: delay, amplitude_u8: 255, flags: 0 }
}

#[test]
fn word_spikes_from_given_draws() {
    // word 2 with window 5: base delay 11; jitter 2 draws from 0..5 and keeps what exceeds 2
    let out = word_spikes(7, 2, 5, 2, &[7, 4, 0x1_0003, 0]);
    assert_eq!(out, vec![spike(7, 11), spike(7, 13), spike(7, 12), spike(7, 11)]);
    assert!(word_spikes(7, 2, 5, 2, &[]).is_empty());
}

#[test]
fn zero_jitter_counts_as_one() {
    let out = word_spikes(1, 0, 3, 0, &[2, 1]);
    assert_eq!(out, vec![spike(1, 2), spike(1, 1)]);
}

#[test]
fn delays_saturate() {
    let out = word_spikes(0, 1, 65534, 10, &[20]);
    assert_eq!(out, vec![spike(0, u16::MAX)]);
}

#[test]
fn sentence_spikes_follow_the_words() {
    let neurons = [Some(0), None, Some(2)];
    let rates = [2u16, 5, 3];
    let out = sentence_spikes(&neurons, &rates, 5, 1);
    assert_eq!(out.len(), 5);
    for s in &out[0..2] {
        assert_eq!(s.src, NeuronIdx(0));
        assert!(s.delay_ticks == 1 || s.delay_ticks == 2);
    }
    for s in &out[2..5] {
        assert_eq!(s.dst, NeuronIdx(2));
        assert!(s.delay_ticks == 11 || s.delay_ticks == 12);
        assert_eq!(s.amplitude_u8, 255);
        assert_eq!(s.flags, 0);
    }
    assert!(sentence_spikes(&[None, None], &[3, 3], 5, 1).is_empty());
}
