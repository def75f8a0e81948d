use utp_out_queue::clock::{as_micros, as_ms};
use utp_out_queue::util::{generate_sequential_identifiers, sequential_identifiers_from};

#[test]
fn generated_identifiers_are_adjacent() {
    let (recv_id, send_id) = generate_sequential_identifiers();
    assert_eq!(send_id as u32, recv_id as u32 + 1);
}

#[test]
fn identifier_pair_avoids_overflow_at_the_top_of_the_range() {
    assert_eq!(sequential_identifiers_from(7), (7, 8));
    assert_eq!(sequential_identifiers_from(65534), (65534, 65535));
    assert_eq!(sequential_identifiers_from(u16::MAX), (65534, 65535));
}

#[test]
fn milliseconds_are_clamped_past_thirty_seconds() {
    assert_eq!(as_ms(2, 345_678_901), 2_345);
    assert_eq!(as_ms(0, 0), 0);
    assert_eq!(as_ms(29, 999_999_999), 29_999);
    assert_eq!(as_ms(30, 0), 30_000);
    // Anything over 30 seconds, by however little, counts as exactly
    // 30 000 ms.
    assert_eq!(as_ms(30, 400_000_000), 30_000);
    assert_eq!(as_ms(30, 999_999_999), 30_000);
    assert_eq!(as_ms(31, 0), 30_000);
    assert_eq!(as_ms(1000, 5), 30_000);
}

#[test]
fn microsecond_timestamps_wrap_modulo_two_to_the_32() {
    assert_eq!(as_micros(3, 500_000), 3_000_500);
    assert_eq!(as_micros(0, 999), 0);
    // 4295 seconds of microseconds just passes the 32-bit boundary.
    assert_eq!(as_micros(4295, 0), 32_704);
}
