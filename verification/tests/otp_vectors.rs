use hashlab::otp::{clock_to_t, current_t, hotp, seconds_to_t, totp, MAX_DIGITS};

const SECRET: &[u8] = b"12345678901234567890";

#[test]
fn totp_at_59_seconds() {
    assert_eq!(totp(SECRET, 59, 30, 8), "94287082");
}

#[test]
fn totp_at_1111111109_seconds() {
    assert_eq!(totp(SECRET, 1111111109, 30, 8), "07081804");
}

#[test]
fn totp_rfc6238_table() {
    let times: [u64; 6] = [59, 1111111109, 1111111111, 1234567890, 2000000000, 20000000000];
    let codes = ["94287082", "07081804", "14050471", "89005924", "69279037", "65353130"];
    for (time, code) in times.iter().zip(codes) {
        assert_eq!(totp(SECRET, *time, 30, 8), code);
    }
}

#[test]
fn hotp_rfc4226_table() {
    let codes = [
        "755224", "287082", "359152", "969429", "338314", "254676", "287922", "162583", "399871",
        "520489",
    ];
    for (counter, code) in codes.iter().enumerate() {
        assert_eq!(hotp(SECRET, counter as u64, 6), *code);
    }
}

#[test]
fn hotp_keeps_leading_zeros() {
    assert_eq!(hotp(SECRET, 7, 8), "82162583");
    assert_eq!(hotp(SECRET, 7, 9), "082162583");
    assert_eq!(hotp(SECRET, 7, 10), "0082162583");
}

#[test]
fn hotp_of_one_digit() {
    assert_eq!(hotp(SECRET, 0, 1), "4");
    assert_eq!(hotp(SECRET, 3, 1), "9");
}

#[test]
fn hotp_of_ten_digits_is_the_whole_truncated_value() {
    assert_eq!(MAX_DIGITS, 10);
    assert_eq!(hotp(SECRET, 0, MAX_DIGITS), "1284755224");
    assert_eq!(hotp(SECRET, 2, MAX_DIGITS), "0137359152");
}

#[test]
fn hotp_has_the_requested_length_and_only_digits() {
    for digits in 1..=10u32 {
        for counter in [0u64, 1, 99, u64::MAX] {
            let code = hotp(b"some key", counter, digits);
            assert_eq!(code.len(), digits as usize);
            assert!(code.chars().all(|c| c.is_ascii_digit()));
        }
    }
}

#[test]
fn hotp_value_lies_below_the_power_of_ten() {
    for digits in 1..=10u32 {
        let code = hotp(b"another key", 42, digits);
        let value: u64 = code.parse().unwrap();
        assert!(value < 10u64.pow(digits));
    }
}

#[test]
fn totp_is_hotp_of_the_time_step() {
    for (seconds, x) in [(0u64, 30u64), (29, 30), (30, 30), (59, 30), (1234567890, 60), (7, 1)] {
        assert_eq!(totp(SECRET, seconds, x, 8), hotp(SECRET, seconds / x, 8));
    }
}

#[test]
fn seconds_to_t_rounds_down() {
    assert_eq!(seconds_to_t(59, 30), 1);
    assert_eq!(seconds_to_t(60, 30), 2);
    assert_eq!(seconds_to_t(29, 30), 0);
    assert_eq!(seconds_to_t(1111111109, 30), 37037036);
    assert_eq!(seconds_to_t(u64::MAX, 1), u64::MAX);
}

#[test]
fn current_t_follows_the_system_clock() {
    let before = std::time::SystemTime::now()
        .duration_since(std::time::UNIX_EPOCH)
        .unwrap()
        .as_secs();
    let step = current_t(30).unwrap();
    let after = std::time::SystemTime::now()
        .duration_since(std::time::UNIX_EPOCH)
        .unwrap()
        .as_secs();
    assert!(before / 30 <= step && step <= after / 30);
}

#[test]
fn clock_to_t_is_the_step_of_the_reading() {
    assert_eq!(clock_to_t(Some(59), 30), Some(1));
    assert_eq!(clock_to_t(Some(1111111109), 30), Some(37037036));
    assert_eq!(clock_to_t(Some(0), 30), Some(0));
    assert_eq!(clock_to_t(Some(u64::MAX), 1), Some(u64::MAX));
    assert_eq!(clock_to_t(None, 30), None);
}
