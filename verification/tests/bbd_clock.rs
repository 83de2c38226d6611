use patches::bbd_clock::{TickPhase, TickSequencer};

#[test]
fn write_and_read_phases_alternate() {
    let mut seq = TickSequencer::new();
    let phases: Vec<TickPhase> = (0..100).map(|_| seq.next_tick().0).collect();
    for pair in phases.windows(2) {
        assert_ne!(pair[0], pair[1], "phases must alternate");
    }
    assert!(matches!(phases.first(), Some(TickPhase::Write)));
}

#[test]
fn tick_indices_are_monotonic() {
    let mut seq = TickSequencer::new();
    let mut last: Option<u64> = None;
    for _ in 0..500 {
        let (_, index) = seq.next_tick();
        if let Some(prev) = last {
            assert_eq!(index, prev + 1, "index gap");
        }
        last = Some(index);
    }
}

#[test]
fn reset_starts_again_with_a_write() {
    let mut seq = TickSequencer::new();
    for _ in 0..7 {
        seq.next_tick();
    }
    assert_eq!(seq.next_tick(), (TickPhase::Read, 7));
    seq.reset();
    assert_eq!(seq.next_tick(), (TickPhase::Write, 0));
    assert_eq!(seq.next_tick(), (TickPhase::Read, 1));
}
