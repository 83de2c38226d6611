use patches::pow2::{is_power_of_two, next_power_of_two};

#[test]
fn powers_of_two_are_recognised() {
    assert!(!is_power_of_two(0));
    assert!(is_power_of_two(1));
    assert!(is_power_of_two(2));
    assert!(!is_power_of_two(3));
    assert!(is_power_of_two(4096));
    assert!(!is_power_of_two(4095));
    assert!(is_power_of_two(1usize << (usize::BITS - 1)));
    assert!(!is_power_of_two(usize::MAX));
    for n in 0..5000usize {
        assert_eq!(is_power_of_two(n), n.is_power_of_two(), "{n}");
    }
}

#[test]
fn next_power_of_two_rounds_up() {
    assert_eq!(next_power_of_two(0), 1);
    assert_eq!(next_power_of_two(1), 1);
    assert_eq!(next_power_of_two(3), 4);
    assert_eq!(next_power_of_two(12), 16);
    assert_eq!(next_power_of_two(16), 16);
    assert_eq!(next_power_of_two(17), 32);
    let top = 1usize << (usize::BITS - 1);
    assert_eq!(next_power_of_two(top), top);
    assert_eq!(next_power_of_two(top - 1), top);
    for n in 0..5000usize {
        assert_eq!(next_power_of_two(n), n.next_power_of_two(), "{n}");
    }
}
