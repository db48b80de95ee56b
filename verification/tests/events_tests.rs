use clank_wasm::events::{
    generation_event, is_generation_milestone, kill_event, push_event, spores_event, SimEvent,
    EVENT_CAPACITY,
};

#[test]
fn log_stops_at_capacity() {
    let mut log: Vec<SimEvent> = Vec::new();
    for t in 0..(EVENT_CAPACITY as u32 + 10) {
        let pushed = push_event(&mut log, spores_event(t));
        assert_eq!(pushed, (t as usize) < EVENT_CAPACITY);
    }
    assert_eq!(log.len(), EVENT_CAPACITY);
    assert_eq!(log[EVENT_CAPACITY - 1].tick, EVENT_CAPACITY as u32 - 1);
}

#[test]
fn kill_events_every_eighth_kill() {
    assert_eq!(kill_event(5, 3, 7), None);
    assert_eq!(
        kill_event(5, 3, 16),
        Some(SimEvent { tick: 5, event_type: 3, p1: 3, p2: 16 })
    );
}

#[test]
fn generation_milestones() {
    assert!(!is_generation_milestone(0));
    assert!(!is_generation_milestone(11));
    assert!(is_generation_milestone(12));
    assert!(is_generation_milestone(36));
    assert_eq!(generation_event(9, 24, 4), SimEvent { tick: 9, event_type: 2, p1: 24, p2: 4 });
    assert_eq!(spores_event(45), SimEvent { tick: 45, event_type: 1, p1: 0, p2: 0 });
}
