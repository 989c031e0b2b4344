use goldworm::event_log::EventLog;

#[derive(Debug, Clone, PartialEq)]
enum Event {
    RunStarted { profile: String, timestamp_ns: u64 },
    EpochBoundary { epoch: u64, mode: String },
}

#[test]
fn event_log_push_and_iter() {
    let mut log = EventLog::new(10);
    log.push(Event::RunStarted { profile: "test".into(), timestamp_ns: 0 });
    assert_eq!(log.len(), 1);
}

#[test]
fn event_log_max_len() {
    let mut log = EventLog::new(3);
    for i in 0..5 {
        log.push(Event::EpochBoundary { epoch: i, mode: "TRAIN".into() });
    }
    assert_eq!(log.len(), 3);
    let epochs: Vec<u64> = log
        .iter()
        .map(|e| match e {
            Event::EpochBoundary { epoch, .. } => *epoch,
            Event::RunStarted { .. } => u64::MAX,
        })
        .collect();
    assert_eq!(epochs, vec![2, 3, 4]);
}

#[test]
fn log_keeps_the_newest_entries() {
    let mut log: EventLog<u32> = EventLog::new(2);
    assert!(log.is_empty());
    assert_eq!(log.last(), None);
    log.push(1);
    log.push(2);
    log.push(3);
    assert_eq!(log.len(), 2);
    assert_eq!(log.iter().cloned().collect::<Vec<_>>(), vec![2, 3]);
    assert_eq!(log.last(), Some(&3));
}

#[test]
fn zero_bound_keeps_nothing() {
    let mut log: EventLog<&str> = EventLog::new(0);
    log.push("a");
    assert!(log.is_empty());
}
