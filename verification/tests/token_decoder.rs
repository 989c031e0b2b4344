use goldworm::substrate::SpikeBuffer;
use goldworm::token_decoder::SpikeTokenDecoder;

fn buffer(indices: Vec<u32>) -> SpikeBuffer {
    let count = indices.len();
    SpikeBuffer { indices, count }
}

#[test]
fn decode_orders_words_by_first_spike() {
    let mut d = SpikeTokenDecoder::new(1);
    d.register_word("hallo".to_string(), 0);
    d.register_word("welt".to_string(), 1);
    let words = d.decode_spikes(&buffer(vec![1, 0, 1, 7, 0]));
    assert_eq!(words, vec!["welt".to_string(), "hallo".to_string()]);
}

#[test]
fn decode_needs_enough_spikes() {
    let mut d = SpikeTokenDecoder::new(2);
    d.register_word("a".to_string(), 3);
    d.register_word("b".to_string(), 4);
    let words = d.decode_spikes(&buffer(vec![3, 4, 4]));
    assert_eq!(words, vec!["b".to_string()]);
    assert!(d.decode_spikes(&buffer(vec![])).is_empty());
}

#[test]
fn later_registration_wins() {
    let mut d = SpikeTokenDecoder::new(1);
    d.register_lexicon(&[("alt".to_string(), 5), ("neu".to_string(), 5), ("x".to_string(), 6)]);
    assert_eq!(d.decode_spikes(&buffer(vec![5, 6])), vec!["neu".to_string(), "x".to_string()]);
}

#[test]
fn counts_sorted_most_frequent_first() {
    let mut d = SpikeTokenDecoder::new(1);
    d.register_word("hund".to_string(), 0);
    d.register_word("katze".to_string(), 1);
    d.register_word("hund".to_string(), 2);
    d.register_word("tier".to_string(), 3);
    let counts = d.decode_with_counts(&buffer(vec![1, 3, 0, 2, 9, 1, 3]));
    assert_eq!(counts, vec![
        ("katze".to_string(), 2),
        ("tier".to_string(), 2),
        ("hund".to_string(), 2),
    ]);
    let counts = d.decode_with_counts(&buffer(vec![3, 0, 2, 0]));
    assert_eq!(counts, vec![("hund".to_string(), 3), ("tier".to_string(), 1)]);
    assert!(d.decode_with_counts(&buffer(vec![8, 9])).is_empty());
}

#[test]
fn decode_with_counts_returns_counts() {
    let mut decoder = SpikeTokenDecoder::new(1);
    decoder.register_word("hello".to_string(), 0);
    decoder.register_word("world".to_string(), 1);
    decoder.register_word("foo".to_string(), 2);

    let indices = vec![0, 0, 0, 1, 1, 2];
    let buffer = SpikeBuffer { indices, count: 100 };

    let result = decoder.decode_with_counts(&buffer);

    assert_eq!(result.len(), 3);
    assert_eq!(result[0], ("hello".to_string(), 3));
    assert_eq!(result[1], ("world".to_string(), 2));
    assert_eq!(result[2], ("foo".to_string(), 1));
}
