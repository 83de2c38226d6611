use patches::slot_deck::config::SlotDeckConfig;

#[test]
fn rejects_non_power_of_two() {
    assert!(SlotDeckConfig::new(2048, 3, 128).is_err());
    assert!(SlotDeckConfig::new(2000, 4, 128).is_err());
    assert!(SlotDeckConfig::new(2048, 4, 100).is_err());
}

#[test]
fn rejects_zero_values() {
    assert!(SlotDeckConfig::new(0, 4, 128).is_err());
    assert!(SlotDeckConfig::new(2048, 0, 128).is_err());
    assert!(SlotDeckConfig::new(2048, 4, 0).is_err());
}

#[test]
fn rejects_window_smaller_than_overlap() {
    assert!(SlotDeckConfig::new(4, 8, 128).is_err());
}

#[test]
fn derived_values() {
    let cfg = SlotDeckConfig::new(2048, 4, 128).expect("valid config");
    assert_eq!(cfg.hop_size(), 512);
    assert_eq!(cfg.total_latency(), 2176);
    assert_eq!(cfg.pool_size(), 16);
}

#[test]
fn error_messages_name_the_first_failing_check() {
    assert_eq!(
        SlotDeckConfig::new(2000, 3, 100).err(),
        Some("window_size must be a non-zero power of two")
    );
    assert_eq!(
        SlotDeckConfig::new(2048, 3, 100).err(),
        Some("overlap_factor must be a non-zero power of two")
    );
    assert_eq!(
        SlotDeckConfig::new(2048, 4, 100).err(),
        Some("processing_budget must be a non-zero power of two")
    );
    assert_eq!(
        SlotDeckConfig::new(4, 8, 128).err(),
        Some("window_size must be >= overlap_factor")
    );
}

#[test]
fn accepted_config_keeps_its_parameters() {
    let cfg = SlotDeckConfig::new(1, 1, 1).expect("valid config");
    assert_eq!((cfg.window_size, cfg.overlap_factor, cfg.processing_budget), (1, 1, 1));
    assert_eq!(cfg.hop_size(), 1);
    // 2 * 1 + max(1, 1 / 1) = 3, rounded up to 4.
    assert_eq!(cfg.pool_size(), 4);
}

#[test]
fn hop_size_tiles_the_window() {
    for &(w, o) in &[(2048usize, 4usize), (256, 16), (8, 8), (64, 1)] {
        let cfg = SlotDeckConfig::new(w, o, 64).unwrap();
        assert_eq!(cfg.hop_size() * o, w);
        assert!(cfg.hop_size().is_power_of_two());
    }
}

#[test]
fn pool_size_is_smallest_power_of_two_above_demand() {
    // hop = 256, budget / hop = 4, raw = 2 * 4 + 4 = 12 -> 16.
    let cfg = SlotDeckConfig::new(1024, 4, 1024).unwrap();
    assert_eq!(cfg.pool_size(), 16);
    // hop = 64, budget / hop = 0 -> 1, raw = 2 * 2 + 1 = 5 -> 8.
    let cfg = SlotDeckConfig::new(128, 2, 32).unwrap();
    assert_eq!(cfg.pool_size(), 8);
    // raw = 2 * 2 + 4 = 8 -> 8 (already a power of two).
    let cfg = SlotDeckConfig::new(128, 2, 256).unwrap();
    assert_eq!(cfg.pool_size(), 8);
}
