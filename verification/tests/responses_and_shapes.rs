use goldworm::chat_types::AvalancheSelection;
use goldworm::payload::{conversation_turn_is_complete, decode_conversation_turn, encode_conversation_turn};
use goldworm::replay::{slot_of_draw, ReplayRing};
use goldworm::response::{build_response_from_selection, response_words};
use goldworm::scaling::{scaled_shape, NetShape, ScaleDir};

fn selection(words: &[&str], pattern: &str) -> AvalancheSelection {
    AvalancheSelection {
        active_clusters: vec![0, 1],
        avalanche_size: words.len(),
        selected_words: words.iter().map(|w| w.to_string()).collect(),
        template_pattern: pattern.to_string(),
        seed_clusters: Vec::new(),
    }
}

#[test]
fn slot_of_draw_is_draw_modulo_count() {
    assert_eq!(slot_of_draw(17, 5), 2);
    assert_eq!(slot_of_draw(4, 5), 4);
    assert_eq!(slot_of_draw(u64::MAX, 1), 0);
}

#[test]
fn sample_uniform_sizes_and_bounds() {
    let mut ring: ReplayRing<u32> = ReplayRing::new(8);
    assert!(ring.sample_uniform(3).is_empty());
    for i in 0..5u32 {
        ring.push(i);
    }
    let slots = ring.sample_uniform(3);
    assert_eq!(slots.len(), 3);
    assert!(slots.iter().all(|&s| s < 5));
    let all = ring.sample_uniform(10);
    assert_eq!(all.len(), 5);
    assert!(all.iter().all(|&s| s < 5));
}

#[test]
fn response_words_fills_noun_and_verb_from_selection() {
    let sel = selection(&["hund", "läuft"], "DET NOUN VERB");
    assert_eq!(response_words(&sel, &[0, 0]), vec!["der", "hund", "läuft"]);
    assert_eq!(response_words(&sel, &[4, 0]), vec!["die", "hund", "läuft"]);
    assert_eq!(response_words(&sel, &[5, 3]), vec!["das", "hund", "läuft"]);
}

#[test]
fn response_words_falls_back_when_words_run_out() {
    let sel = selection(&["katze"], "DET NOUN VERB");
    assert_eq!(response_words(&sel, &[1, 3]), vec!["die", "katze", "sieht"]);
    let empty = selection(&[], "DET NOUN ADJ VERB PREP LOC");
    assert_eq!(
        response_words(&empty, &[2, 6]),
        vec!["das", "hund", "groß", "scheint", "in", "haus"]
    );
    let adj = selection(&["vogel", "klein"], "DET NOUN ADJ VERB");
    assert_eq!(response_words(&adj, &[0, 5]), vec!["der", "vogel", "klein", "fliegt"]);
}

#[test]
fn response_words_unknown_pattern_is_empty() {
    let sel = selection(&["hund"], "NOUN");
    assert!(response_words(&sel, &[0, 0]).is_empty());
}

#[test]
fn build_response_keeps_selected_words() {
    let sel = selection(&["hund", "läuft"], "DET NOUN VERB");
    let r = build_response_from_selection(&sel);
    assert_eq!(r.len(), 3);
    assert!(["der", "die", "das"].contains(&r[0].as_str()));
    assert_eq!(r[1], "hund");
    assert_eq!(r[2], "läuft");
}

#[test]
fn scaled_shape_up_doubles_every_axis() {
    let base = NetShape { width: 1, depth: 1, recurrence: 4, layers: 1 };
    let up = scaled_shape(base, 1, ScaleDir::Up);
    assert_eq!(up, NetShape { width: 2, depth: 2, recurrence: 8, layers: 2 });
    let eight = scaled_shape(base, 5, ScaleDir::Equal);
    assert_eq!(eight, NetShape { width: 8, depth: 8, recurrence: 32, layers: 8 });
}

#[test]
fn scaled_shape_down_halves_with_floors() {
    let base = NetShape { width: 1, depth: 2, recurrence: 4, layers: 4 };
    let down = scaled_shape(base, 1, ScaleDir::Down);
    assert_eq!(down, NetShape { width: 1, depth: 1, recurrence: 4, layers: 2 });
}

#[test]
fn scaled_shape_up_then_down_returns() {
    let base = NetShape { width: 3, depth: 2, recurrence: 4, layers: 5 };
    let up = scaled_shape(base, 2, ScaleDir::Up);
    assert_eq!(up, NetShape { width: 12, depth: 8, recurrence: 16, layers: 20 });
    assert_eq!(scaled_shape(up, 2, ScaleDir::Down), base);
}

#[test]
fn conversation_turn_layout_and_roundtrip() {
    let bytes = encode_conversation_turn(b"user", "hallo".as_bytes(), 42);
    let mut expected: Vec<u8> = vec![4, 0];
    expected.extend_from_slice(b"user");
    expected.extend_from_slice(&[5, 0, 0, 0]);
    expected.extend_from_slice(b"hallo");
    expected.extend_from_slice(&42u64.to_le_bytes());
    assert_eq!(bytes, expected);
    assert!(conversation_turn_is_complete(&bytes));
    let (role, text, ts) = decode_conversation_turn(&bytes);
    assert_eq!(role, b"user".to_vec());
    assert_eq!(text, b"hallo".to_vec());
    assert_eq!(ts, 42);
}

#[test]
fn conversation_turn_short_payload_is_incomplete() {
    let bytes = encode_conversation_turn(b"bot", b"ok", 7);
    assert!(!conversation_turn_is_complete(&bytes[..bytes.len() - 1]));
    assert!(!conversation_turn_is_complete(&[3]));
    assert!(!conversation_turn_is_complete(&[]));
}

fn base_shape(layers: usize) -> NetShape {
    NetShape { width: 1, depth: 1, recurrence: 4, layers }
}

#[test]
fn scale_up_doubles_dimensions() {
    let scaled = scaled_shape(base_shape(1), 1, ScaleDir::Up);
    assert_eq!(scaled.layers, 2);
    assert_eq!(scaled.width, 2);
    assert_eq!(scaled.recurrence, 8);
}

#[test]
fn scale_down_halves_dimensions() {
    let scaled = scaled_shape(base_shape(4), 1, ScaleDir::Down);
    assert_eq!(scaled.layers, 2);
    assert_eq!(scaled.width, 1);
    assert_eq!(scaled.recurrence, 4);
}

#[test]
fn equal_scaling_preserves_symmetry() {
    let up = scaled_shape(base_shape(2), 1, ScaleDir::Up);
    assert_eq!(up.layers, 4);
    let down = scaled_shape(up, 1, ScaleDir::Down);
    assert_eq!(down.layers, 2);
    assert_eq!(down.width, 1);
}
