//! One-time passwords over HMAC-SHA1: counter based (HOTP) and time based
//! (TOTP).

use crate::bits::{be_bytes_u64, push_be_u64};
use crate::hmac::{hmac, hmac_sha1};
use vstd::arithmetic::div_mod::{
    lemma_div_denominator, lemma_fundamental_div_mod, lemma_mod_bound, lemma_mod_breakdown,
    lemma_small_mod,
};
use vstd::arithmetic::mul::lemma_mul_is_commutative;
use vstd::prelude::*;

verus! {

/// The largest number of digits a password can have.
pub const MAX_DIGITS: u32 = 10;

/// Ten to the power `d`.
pub open spec fn pow10(d: nat) -> nat
    decreases d,
{
    if d == 0 {
        1
    } else {
        10 * pow10((d - 1) as nat)
    }
}

/// The 31-bit number that dynamic truncation takes out of a twenty-byte
/// digest: the low four bits of the last byte give an offset, and the four
/// bytes from that offset on, without the top bit, are read big-endian.
pub open spec fn truncated(h: Seq<u8>) -> nat {
    let o = (h[19] & 0x0f) as int;
    ((h[o] & 0x7f) * 0x100_0000 + h[o + 1] * 0x1_0000 + h[o + 2] * 0x100 + h[o + 3]) as nat
}

/// The character of a decimal digit, for `n < 10`.
pub open spec fn digit_char(n: nat) -> char {
    if n == 0 {
        '0'
    } else if n == 1 {
        '1'
    } else if n == 2 {
        '2'
    } else if n == 3 {
        '3'
    } else if n == 4 {
        '4'
    } else if n == 5 {
        '5'
    } else if n == 6 {
        '6'
    } else if n == 7 {
        '7'
    } else if n == 8 {
        '8'
    } else {
        '9'
    }
}

/// The digit that a character stands for; 0 for a character that is no digit.
pub open spec fn digit_value(c: char) -> nat {
    if c == '1' {
        1
    } else if c == '2' {
        2
    } else if c == '3' {
        3
    } else if c == '4' {
        4
    } else if c == '5' {
        5
    } else if c == '6' {
        6
    } else if c == '7' {
        7
    } else if c == '8' {
        8
    } else if c == '9' {
        9
    } else {
        0
    }
}

/// Whether a character is a decimal digit.
pub open spec fn is_digit(c: char) -> bool {
    c == '0' || c == '1' || c == '2' || c == '3' || c == '4' || c == '5' || c == '6' || c == '7'
        || c == '8' || c == '9'
}

/// The last `width` decimal digits of `value`, most significant first, with
/// leading zeros.
pub open spec fn decimal(value: nat, width: nat) -> Seq<char>
    decreases width,
{
    if width == 0 {
        Seq::empty()
    } else {
        decimal(value / 10, (width - 1) as nat).push(digit_char(value % 10))
    }
}

/// The number that a string of decimal digits denotes.
pub open spec fn decimal_value(s: Seq<char>) -> nat
    decreases s.len(),
{
    if s.len() == 0 {
        0
    } else {
        10 * decimal_value(s.drop_last()) + digit_value(s.last())
    }
}

/// The number of the time step that `seconds` falls in, for steps of `x` seconds.
pub open spec fn time_step(seconds: u64, x: u64) -> u64 {
    seconds / x
}

/// The HOTP value: the truncated HMAC of the counter, reduced to `d` digits.
pub open spec fn hotp_value(k: Seq<u8>, c: u64, d: nat) -> nat {
    truncated(hmac_sha1(k, be_bytes_u64(c))) % pow10(d)
}

/// The HOTP password of `d` digits for key `k` and counter `c`.
pub open spec fn hotp_code(k: Seq<u8>, c: u64, d: nat) -> Seq<char> {
    decimal(hotp_value(k, c, d), d)
}

/// The TOTP password of `d` digits for key `k` at `seconds`, with time steps
/// of `x` seconds.
pub open spec fn totp_code(k: Seq<u8>, seconds: u64, x: u64, d: nat) -> Seq<char> {
    hotp_code(k, time_step(seconds, x), d)
}

/// Powers of ten are positive.
pub proof fn lemma_pow10_positive(d: nat)
    ensures
        pow10(d) > 0,
    decreases d,
{
    if d > 0 {
        lemma_pow10_positive((d - 1) as nat);
    }
}

/// A rendering has as many characters as it was asked for, all of them
/// decimal digits.
pub proof fn lemma_decimal_digits(value: nat, width: nat)
    ensures
        decimal(value, width).len() == width,
        forall|i: int| 0 <= i < width ==> is_digit(#[trigger] decimal(value, width)[i]),
    decreases width,
{
    if width > 0 {
        lemma_decimal_digits(value / 10, (width - 1) as nat);
    }
}

/// A rendering denotes the value modulo ten to the power of its width.
pub proof fn lemma_decimal_value(value: nat, width: nat)
    ensures
        decimal_value(decimal(value, width)) == value % pow10(width),
    decreases width,
{
    if width > 0 {
        let rest = decimal(value / 10, (width - 1) as nat);
        let p = pow10((width - 1) as nat);
        lemma_decimal_value(value / 10, (width - 1) as nat);
        lemma_pow10_positive((width - 1) as nat);
        assert(decimal(value, width).drop_last() =~= rest);
        assert(digit_value(digit_char(value % 10)) == value % 10);
        lemma_mod_breakdown(value as int, 10, p as int);
    }
}

/// A HOTP password has the requested number of characters, all of them
/// decimal digits, and the number it denotes is the HOTP value, which lies
/// below ten to the power of the number of digits.
pub proof fn lemma_hotp_code(k: Seq<u8>, c: u64, d: nat)
    ensures
        hotp_code(k, c, d).len() == d,
        forall|i: int| 0 <= i < d ==> is_digit(#[trigger] hotp_code(k, c, d)[i]),
        decimal_value(hotp_code(k, c, d)) == hotp_value(k, c, d),
        hotp_value(k, c, d) < pow10(d),
{
    let v = hotp_value(k, c, d);
    lemma_pow10_positive(d);
    lemma_decimal_digits(v, d);
    lemma_decimal_value(v, d);
    lemma_small_mod(v, pow10(d));
}

/// A rendering of positive width is the rendering of the higher digits
/// followed by the last digit.
proof fn lemma_decimal_last(v: nat, w: nat)
    requires
        w > 0,
    ensures
        decimal(v, w) == decimal(v / 10, (w - 1) as nat).push(digit_char(v % 10)),
{
}

/// The powers of ten up to the tenth.
proof fn lemma_pow10_table()
    ensures
        pow10(0) == 1,
        pow10(1) == 10,
        pow10(2) == 100,
        pow10(3) == 1_000,
        pow10(4) == 10_000,
        pow10(5) == 100_000,
        pow10(6) == 1_000_000,
        pow10(7) == 10_000_000,
        pow10(8) == 100_000_000,
        pow10(9) == 1_000_000_000,
        pow10(10) == 10_000_000_000,
{
    reveal_with_fuel(pow10, 11);
}

/// Dividing by a power of ten and then by ten divides by the next power.
proof fn lemma_div_pow10(value: nat, k: nat)
    ensures
        (value / pow10(k)) / 10 == value / pow10(k + 1),
{
    lemma_pow10_positive(k);
    lemma_div_denominator(value as int, pow10(k) as int, 10);
    assert(pow10(k + 1) == 10 * pow10(k));
    assert(pow10(k) * 10 == 10 * pow10(k));
}

/// Ten to the power `d`.
fn power_of_ten(d: u32) -> (p: u64)
    requires
        d <= 10,
    ensures
        p == pow10(d as nat),
{
    let mut p: u64 = 1;
    let mut i: u32 = 0;
    while i < d
        invariant
            i <= d <= 10,
            p == pow10(i as nat),
        decreases d - i,
    {
        proof {
            lemma_pow10_table();
        }
        p = p * 10;
        i = i + 1;
    }
    p
}

/// The one-character string of a decimal digit.
fn digit_str(n: u64) -> (s: &'static str)
    requires
        n < 10,
    ensures
        s@ == seq![digit_char(n as nat)],
{
    proof {
        reveal_strlit("0");
        reveal_strlit("1");
        reveal_strlit("2");
        reveal_strlit("3");
        reveal_strlit("4");
        reveal_strlit("5");
        reveal_strlit("6");
        reveal_strlit("7");
        reveal_strlit("8");
        reveal_strlit("9");
    }
    let s = if n == 0 {
        "0"
    } else if n == 1 {
        "1"
    } else if n == 2 {
        "2"
    } else if n == 3 {
        "3"
    } else if n == 4 {
        "4"
    } else if n == 5 {
        "5"
    } else if n == 6 {
        "6"
    } else if n == 7 {
        "7"
    } else if n == 8 {
        "8"
    } else {
        "9"
    };
    assert(s@ =~= seq![digit_char(n as nat)]);
    s
}

/// The last `width` decimal digits of `value`, with leading zeros.
fn render_decimal(value: u64, width: u32) -> (s: String)
    requires
        width <= 10,
    ensures
        s@ == decimal(value as nat, width as nat),
{
    let mut low_first: Vec<u64> = Vec::new();
    let mut v: u64 = value;
    let mut i: u32 = 0;
    assert(pow10(0) == 1);
    while i < width
        invariant
            i <= width,
            low_first@.len() == i,
            v == value as nat / pow10(i as nat),
            forall|k: int|
                0 <= k < i ==> #[trigger] low_first@[k] == (value as nat / pow10(k as nat)) % 10,
        decreases width - i,
    {
        proof {
            lemma_div_pow10(value as nat, i as nat);
        }
        low_first.push(v % 10);
        v = v / 10;
        i = i + 1;
    }
    let mut s = String::new();
    let mut k: u32 = width;
    while k > 0
        invariant
            k <= width,
            low_first@.len() == width,
            forall|j: int|
                0 <= j < width ==> #[trigger] low_first@[j] == (value as nat / pow10(j as nat))
                    % 10,
            s@ == decimal(value as nat / pow10(k as nat), (width - k) as nat),
        decreases k,
    {
        k = k - 1;
        let ghost higher = s@;
        let ghost shifted = value as nat / pow10(k as nat);
        let digit = low_first[k as usize];
        s.append(digit_str(digit));
        proof {
            lemma_div_pow10(value as nat, k as nat);
            assert(digit == shifted % 10);
            assert(higher == decimal(shifted / 10, (width - k - 1) as nat));
            assert(s@ =~= higher.push(digit_char(shifted % 10)));
            lemma_decimal_last(shifted, (width - k) as nat);
        }
    }
    s
}

/// The number of the time step that `seconds` falls in.
pub fn seconds_to_t(seconds: u64, x: u64) -> (t: u64)
    requires
        x > 0,
    ensures
        t == time_step(seconds, x),
{
    seconds / x
}

/// Dynamic truncation of a twenty-byte digest.
fn dynamic_truncate(mac: &[u8]) -> (bin_code: u32)
    requires
        mac@.len() == 20,
    ensures
        bin_code == truncated(mac@),
        bin_code < 0x8000_0000,
{
    let last = mac[19];
    assert(last & 0x0f <= 15) by (bit_vector);
    let offset = (last & 0x0f) as usize;
    let first = mac[offset];
    assert(first & 0x7f <= 127) by (bit_vector);
    let b0: u32 = (first & 0x7f) as u32;
    let b1: u32 = mac[offset + 1] as u32;
    let b2: u32 = mac[offset + 2] as u32;
    let b3: u32 = mac[offset + 3] as u32;
    b0 * 0x100_0000 + b1 * 0x1_0000 + b2 * 0x100 + b3
}

/// Whole seconds since the Unix epoch by the system clock: std's
/// `SystemTime::now` and `SystemTime::duration_since` from `UNIX_EPOCH`, whose
/// error, a clock that stands before the epoch, gives `None`. Nothing is
/// claimed of the number: it differs from call to call.
#[verifier::external_body]
fn unix_seconds() -> (seconds: Option<u64>) {
    match std::time::SystemTime::now().duration_since(std::time::UNIX_EPOCH) {
        Ok(elapsed) => Some(elapsed.as_secs()),
        Err(_) => None,
    }
}

/// The number of the time step that the system clock stands in, for steps
/// of `x` seconds; `None` where the clock stands before the Unix epoch.
pub fn current_t(x: u64) -> (t: Option<u64>)
    requires
        x > 0,
    ensures
        t matches Some(step) ==> exists|seconds: u64| step == #[trigger] time_step(seconds, x),
{
    clock_to_t(unix_seconds(), x)
}

/// The number of the time step of a clock reading, for steps of `x`
/// seconds: the step that the seconds fall in, and `None` for a clock that
/// gave no reading.
pub fn clock_to_t(reading: Option<u64>, x: u64) -> (t: Option<u64>)
    requires
        x > 0,
    ensures
        t == (match reading {
            Some(seconds) => Some(time_step(seconds, x)),
            None => None,
        }),
{
    match reading {
        Some(current_seconds) => Some(seconds_to_t(current_seconds, x)),
        None => None,
    }
}

/// The HOTP password of `digits` digits for `key` and `counter`.
pub fn hotp(key: &[u8], counter: u64, digits: u32) -> (code: String)
    requires
        key@.len() < 0x2000_0000_0000_0000,
        1 <= digits <= MAX_DIGITS,
    ensures
        code@ == hotp_code(key@, counter, digits as nat),
        code@.len() == digits,
        forall|i: int| 0 <= i < digits ==> is_digit(#[trigger] code@[i]),
        decimal_value(code@) == hotp_value(key@, counter, digits as nat),
        decimal_value(code@) < pow10(digits as nat),
{
    let mut message: Vec<u8> = Vec::new();
    push_be_u64(&mut message, counter);
    assert(message@ =~= be_bytes_u64(counter));
    let mac = hmac(key, message.as_slice());
    let bin_code = dynamic_truncate(mac.as_slice());
    proof {
        lemma_pow10_positive(digits as nat);
    }
    let number = (bin_code as u64) % power_of_ten(digits);
    proof {
        lemma_hotp_code(key@, counter, digits as nat);
    }
    render_decimal(number, digits)
}

/// The TOTP password of `digits` digits for `key` at `seconds`, with time
/// steps of `x` seconds.
pub fn totp(key: &[u8], seconds: u64, x: u64, digits: u32) -> (code: String)
    requires
        key@.len() < 0x2000_0000_0000_0000,
        x > 0,
        1 <= digits <= MAX_DIGITS,
    ensures
        code@ == totp_code(key@, seconds, x, digits as nat),
        code@ == hotp_code(key@, time_step(seconds, x), digits as nat),
        code@.len() == digits,
{
    hotp(key, seconds_to_t(seconds, x), digits)
}

/// A TOTP password is the HOTP password whose counter is the number of whole
/// time steps in the time: the time divided by the step, rounded down.
pub proof fn lemma_totp_is_hotp(k: Seq<u8>, seconds: u64, x: u64, d: nat)
    requires
        x > 0,
    ensures
        totp_code(k, seconds, x, d) == hotp_code(k, (seconds as int / x as int) as u64, d),
        time_step(seconds, x) * x <= seconds < time_step(seconds, x) * x + x,
{
    lemma_fundamental_div_mod(seconds as int, x as int);
    lemma_mod_bound(seconds as int, x as int);
    lemma_mul_is_commutative(x as int, seconds as int / x as int);
}

} // verus!
