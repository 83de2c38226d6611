use patches::slot_deck::active_windows::ActiveWindows;

fn make_buf(window_size: usize, fill: f32) -> Vec<f32> {
    vec![fill; window_size]
}

/// Overlap-add sum of the contributions, in slot order, and the expired buffer.
fn summed(aw: &mut ActiveWindows<f32>, position: u64) -> (f32, Option<Vec<f32>>) {
    let (contributions, expired) = aw.read_sum(position);
    (contributions.iter().fold(0.0f32, |acc, &x| acc + x), expired)
}

#[test]
fn insert_into_empty() {
    let mut aw = ActiveWindows::new(2, 4);
    let rejected = aw.insert(0, make_buf(4, 0.0));
    assert!(rejected.is_none(), "should accept into empty slot");
}

#[test]
fn insert_returns_buffer_when_full() {
    let mut aw = ActiveWindows::new(1, 4);
    assert!(aw.insert(0, make_buf(4, 0.0)).is_none());
    let rejected = aw.insert(4, make_buf(4, 1.0));
    assert!(rejected.is_some(), "should reject when full");
}

#[test]
fn write_sample_fills_and_completes() {
    let mut aw = ActiveWindows::new(2, 4);
    aw.insert(0, make_buf(4, 0.0));
    for pos in 0..3 {
        let completed = aw.write_sample(pos, (pos + 1) as f32);
        assert!(completed.is_none());
    }
    let completed = aw.write_sample(3, 4.0);
    assert!(completed.is_some());
    let slot = completed.unwrap();
    assert_eq!(slot.start, 0);
    assert_eq!(&*slot.data, &[1.0, 2.0, 3.0, 4.0]);
}

#[test]
fn write_sample_with_overlapping_windows() {
    let mut aw = ActiveWindows::new(2, 4);
    aw.insert(0, make_buf(4, 0.0));
    aw.insert(2, make_buf(4, 0.0));
    let completed = aw.write_sample(2, 10.0);
    assert!(completed.is_none());
    let completed = aw.write_sample(3, 20.0);
    assert!(completed.is_some());
    let slot = completed.unwrap();
    assert_eq!(slot.start, 0);
    assert_eq!(slot.data[2], 10.0);
    assert_eq!(slot.data[3], 20.0);
}

#[test]
fn read_sum_overlap_add() {
    let mut aw = ActiveWindows::new(2, 4);
    let mut buf_a = make_buf(4, 0.0);
    buf_a[2] = 3.0;
    buf_a[3] = 5.0;
    aw.insert(0, buf_a);
    let mut buf_b = make_buf(4, 0.0);
    buf_b[0] = 7.0;
    buf_b[1] = 11.0;
    aw.insert(2, buf_b);
    let (sum, expired) = summed(&mut aw, 2);
    assert_eq!(sum, 10.0);
    assert!(expired.is_none());
    let (sum, expired) = summed(&mut aw, 3);
    assert_eq!(sum, 16.0);
    assert!(expired.is_some());
}

#[test]
fn read_sum_no_contribution_before_start() {
    let mut aw = ActiveWindows::new(1, 4);
    let mut buf = make_buf(4, 0.0);
    buf[0] = 99.0;
    aw.insert(10, buf);
    let (sum, expired) = summed(&mut aw, 8);
    assert_eq!(sum, 0.0);
    assert!(expired.is_none());
}

#[test]
fn expiry_frees_slot_for_reuse() {
    let mut aw = ActiveWindows::new(1, 2);
    aw.insert(0, make_buf(2, 1.0));
    let (_, expired) = summed(&mut aw, 1);
    assert!(expired.is_some());
    let rejected = aw.insert(2, make_buf(2, 2.0));
    assert!(rejected.is_none());
}

#[test]
fn contributions_come_in_slot_order() {
    let mut aw = ActiveWindows::new(3, 4);
    aw.insert(4, vec![10.0f32, 11.0, 12.0, 13.0]);
    aw.insert(2, vec![20.0f32, 21.0, 22.0, 23.0]);
    aw.insert(100, vec![30.0f32; 4]);
    let (contributions, expired) = aw.read_sum(5);
    assert_eq!(contributions, vec![11.0, 23.0]);
    // The window at 2 ends at 5.
    assert_eq!(expired, Some(vec![20.0, 21.0, 22.0, 23.0]));
}

#[test]
fn windows_wrap_around_the_position_counter() {
    // A window starting two samples before the counter wraps covers 0 and 1.
    let mut aw = ActiveWindows::new(1, 4);
    aw.insert(u64::MAX - 1, vec![0.0f32; 4]);
    assert!(aw.write_sample(u64::MAX - 1, 1.0).is_none());
    assert!(aw.write_sample(u64::MAX, 2.0).is_none());
    assert!(aw.write_sample(0, 3.0).is_none());
    let slot = aw.write_sample(1, 4.0).expect("window completes at offset 3");
    assert_eq!(slot.start, u64::MAX - 1);
    assert_eq!(slot.data, vec![1.0, 2.0, 3.0, 4.0]);
}

#[test]
fn insert_takes_first_free_slot() {
    let mut aw = ActiveWindows::new(3, 2);
    aw.insert(0, vec![1.0f32, 1.0]);
    aw.insert(1, vec![2.0f32, 2.0]);
    // Expire the window at 0 (its last sample is 1), freeing slot 0.
    let (_, expired) = aw.read_sum(1);
    assert_eq!(expired, Some(vec![1.0, 1.0]));
    aw.insert(5, vec![3.0f32, 3.0]);
    // Slot order now: window at 5 (slot 0), window at 1 (slot 1).
    let (contributions, _) = aw.read_sum(2);
    assert_eq!(contributions, vec![2.0]);
    let (contributions, _) = aw.read_sum(5);
    assert_eq!(contributions, vec![3.0]);
}
