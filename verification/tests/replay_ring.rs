use goldworm::replay::ReplayRing;

type Transition = (Vec<usize>, Vec<usize>, f64, bool);

fn transition(i: Vec<usize>, o: Vec<usize>, reward: f64, done: bool) -> Transition {
    (i, o, reward, done)
}

#[test]
fn replay_push_and_len() {
    let mut buf: ReplayRing<Transition> = ReplayRing::new(4);
    buf.push(transition(vec![0], vec![1], 1.0, false));
    buf.push(transition(vec![2], vec![3], -1.0, true));
    assert_eq!(buf.len(), 2);
    assert!(!buf.is_empty());
    assert!(!buf.is_full());
}

#[test]
fn replay_ring_overwrite() {
    let mut buf: ReplayRing<Transition> = ReplayRing::new(2);
    buf.push(transition(vec![0], vec![1], 1.0, false));
    buf.push(transition(vec![2], vec![3], 2.0, false));
    buf.push(transition(vec![4], vec![5], 3.0, false));
    assert_eq!(buf.len(), 2);
    assert!(buf.is_full());
    assert_eq!(buf.get(0).2, 3.0);
    assert_eq!(buf.get(1).2, 2.0);
}

#[test]
fn replay_sample_uniform() {
    let mut buf: ReplayRing<Transition> = ReplayRing::new(10);
    for i in 0..10 {
        buf.push(transition(vec![i], vec![i], i as f64, false));
    }
    let batch = buf.sample_uniform(3);
    assert_eq!(batch.len(), 3);
    assert!(batch.iter().all(|&s| s < 10));
}

#[test]
fn replay_clear() {
    let mut buf: ReplayRing<Transition> = ReplayRing::new(10);
    buf.push(transition(vec![0], vec![1], 1.0, false));
    buf.clear();
    assert!(buf.is_empty());
    assert_eq!(buf.len(), 0);
}

#[test]
fn ring_positions_wrap() {
    let mut ring: ReplayRing<u32> = ReplayRing::new(2);
    assert_eq!(ring.push(1), 0);
    assert_eq!(ring.push(2), 1);
    assert_eq!(ring.position(), 0);
    assert_eq!(ring.push(3), 0);
    assert_eq!(*ring.get(0), 3);
    assert_eq!(ring.push(4), 1);
    assert_eq!(*ring.get(1), 4);
    assert_eq!(ring.filled(), 2);
    assert_eq!(ring.capacity(), 2);
    let mut small: ReplayRing<usize> = ReplayRing::new(10);
    small.push(5);
    assert_eq!(small.sample_uniform(4), vec![0]);
    let empty: ReplayRing<usize> = ReplayRing::new(3);
    assert!(empty.sample_uniform(2).is_empty());
}
