use goldworm::substrate::{ChatArena, SpikeBuffer};

#[test]
fn spike_buffer_push_and_iter() {
    let mut buf = SpikeBuffer::new(2);
    buf.push(0).unwrap();
    buf.push(1).unwrap();
    assert_eq!(buf.iter().cloned().collect::<Vec<_>>(), vec![0, 1]);
    assert!(buf.push(2).is_err());
}

#[test]
fn full_buffer_refuses_and_keeps_its_spikes() {
    let mut buf = SpikeBuffer::new(1);
    assert_eq!(buf.push(7), Ok(()));
    assert_eq!(buf.push(8), Err("SpikeBuffer full"));
    assert_eq!(buf.indices, vec![7]);
    buf.clear();
    assert!(buf.indices.is_empty());
    assert_eq!(buf.count, 1);
    assert_eq!(buf.push(9), Ok(()));
}

#[test]
fn arena_keeps_the_three_lists_aligned() {
    let mut arena: ChatArena<u8, char, bool> = ChatArena::new();
    assert_eq!(arena.push(1, 'a', true), 0);
    assert_eq!(arena.push(2, 'b', false), 1);
    *arena.encoder_mut(1).unwrap() = 'z';
    *arena.trainer_mut(0).unwrap() = 10;
    assert!(arena.decoder_mut(2).is_none());
    assert_eq!(arena.trainers, vec![10, 2]);
    assert_eq!(arena.encoders, vec!['a', 'z']);
    assert_eq!(arena.decoders, vec![true, false]);
}
