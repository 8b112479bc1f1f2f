use memapi::allocation::{Allocation, HIGH_32BIT, MIB};
use memapi::text::append_decimal;

#[test]
fn sizes_below_two_gib_come_back_exactly() {
    for size in [0usize, 1, 1000, 123456789, (1 << 31) - 1] {
        let allocation = Allocation::new(3, size);
        assert_eq!(allocation.callstack_id, 3);
        assert_eq!(allocation.compressed_size as usize, size);
        assert_eq!(allocation.size(), size);
    }
}

#[test]
fn sizes_from_two_gib_are_stored_in_mebibytes() {
    let two_gib = Allocation::new(0, 1 << 31);
    assert_eq!(two_gib.compressed_size, HIGH_32BIT | 2048);
    assert_eq!(two_gib.size(), 1 << 31);

    let three_gib = Allocation::new(0, 3 << 30);
    assert_eq!(three_gib.compressed_size, HIGH_32BIT | 3072);
    assert_eq!(three_gib.size(), 3 << 30);
}

#[test]
fn large_sizes_round_to_the_nearest_mebibyte() {
    let base = 5usize << 30;
    assert_eq!(Allocation::new(0, base + MIB / 2 - 1).size(), base);
    assert_eq!(Allocation::new(0, base + MIB / 2).size(), base + MIB);
    assert_eq!(Allocation::new(0, base + MIB - 1).size(), base + MIB);
    assert_eq!(Allocation::new(0, base + 1).size(), base);
}

#[test]
fn large_sizes_come_back_within_half_a_mebibyte() {
    let mut size = 1usize << 31;
    while size <= 1 << 50 {
        for probe in [size, size + 1, size + 524287, size + 524288, size + 999999] {
            if probe > 1 << 50 {
                continue;
            }
            let back = Allocation::new(0, probe).size();
            let diff = if probe < back { back - probe } else { probe - back };
            assert!(diff <= MIB / 2);
        }
        size = size + size / 3 + 7;
    }
    assert_eq!(Allocation::new(0, 1 << 50).size(), 1 << 50);
}

#[test]
fn decimal_text_of_numbers() {
    for (n, expected) in [
        (0usize, "0"),
        (7, "7"),
        (10, "10"),
        (42, "42"),
        (1000, "1000"),
        (51000, "51000"),
        (1234567890, "1234567890"),
        (usize::MAX, "18446744073709551615"),
    ] {
        let mut text = String::from("x=");
        append_decimal(&mut text, n);
        assert_eq!(text, format!("x={}", expected));
    }
}
