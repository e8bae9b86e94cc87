//! Decimal numerals: what a string of digits denotes, and how numbers are
//! read from text and written to it.

use vstd::arithmetic::div_mod::lemma_fundamental_div_mod_converse;
use vstd::arithmetic::power::{lemma_pow0, lemma_pow_adds, lemma_pow_positive, pow};
use vstd::prelude::*;

verus! {

/// `c` is one of the ten decimal digits.
pub open spec fn is_digit(c: char) -> bool {
    '0' <= c <= '9'
}

/// The number that a decimal digit stands for.
pub open spec fn digit_value(c: char) -> nat
    recommends
        is_digit(c),
{
    (c as int - '0' as int) as nat
}

/// Every character of `s` is a decimal digit.
pub open spec fn all_digits(s: Seq<char>) -> bool {
    forall|i: int| 0 <= i < s.len() ==> is_digit(#[trigger] s[i])
}

/// The number that a string of decimal digits denotes; the empty string
/// denotes zero.
pub open spec fn digits_value(s: Seq<char>) -> nat
    recommends
        all_digits(s),
    decreases s.len(),
{
    if s.len() == 0 {
        0
    } else {
        10 * digits_value(s.drop_last()) + digit_value(s.last())
    }
}

/// The number that `s` denotes as an unsigned decimal integer no larger than
/// `max`: `s` is one or more digits, nothing else.
pub open spec fn unsigned_of(s: Seq<char>, max: nat) -> Option<nat> {
    if s.len() > 0 && all_digits(s) && digits_value(s) <= max {
        Some(digits_value(s))
    } else {
        None
    }
}

/// A longer string of digits denotes no smaller a number than its beginning.
pub proof fn lemma_digits_value_grows(s: Seq<char>, n: int)
    requires
        0 <= n <= s.len(),
    ensures
        digits_value(s.take(n)) <= digits_value(s),
    decreases s.len(),
{
    if n < s.len() {
        assert(s.drop_last().take(n) =~= s.take(n));
        lemma_digits_value_grows(s.drop_last(), n);
    } else {
        assert(s.take(n) =~= s);
    }
}

/// The characters of a string, one by one.
fn chars_of(text: &str) -> (chars: Vec<char>)
    ensures
        chars@ == text@,
{
    let mut chars: Vec<char> = Vec::new();
    for c in rest: text.chars()
        invariant
            rest.seq() == text@,
            chars@ == text@.take(rest.index() as int),
    {
        chars.push(c);
        assert(chars@ =~= text@.take(rest.index() + 1));
    }
    assert(chars@ =~= text@);
    chars
}

/// The number that `c` stands for, if it is a decimal digit.
fn digit_of(c: char) -> (digit: Option<u8>)
    ensures
        digit is Some <==> is_digit(c),
        digit is Some ==> digit->0 == digit_value(c),
{
    if '0' <= c && c <= '9' {
        Some(c as u8 - '0' as u8)
    } else {
        None
    }
}

/// Reads the digits of `chars` from `start` on, up to the first character
/// that is no digit, and returns their number with the place where it
/// stopped; `None` as soon as the number read exceeds `max`.
fn scan_digits(chars: &Vec<char>, start: usize, max: u64) -> (scanned: Option<(u64, usize)>)
    requires
        start <= chars@.len(),
    ensures
        match scanned {
            Some((value, end)) => {
                &&& start <= end <= chars@.len()
                &&& all_digits(chars@.subrange(start as int, end as int))
                &&& value == digits_value(chars@.subrange(start as int, end as int))
                &&& value <= max
                &&& end < chars@.len() ==> !is_digit(chars@[end as int])
            },
            None => exists|end: int|
                start < end <= chars@.len() && all_digits(
                    #[trigger] chars@.subrange(start as int, end),
                ) && digits_value(chars@.subrange(start as int, end)) > max,
        },
{
    let mut value: u64 = 0;
    let mut end: usize = start;
    while end < chars.len()
        invariant
            start <= end <= chars@.len(),
            all_digits(chars@.subrange(start as int, end as int)),
            value == digits_value(chars@.subrange(start as int, end as int)),
            value <= max,
        decreases chars@.len() - end,
    {
        let digit: u8 = match digit_of(chars[end]) {
            Some(digit) => digit,
            None => {
                return Some((value, end));
            },
        };
        let ghost longer = chars@.subrange(start as int, end + 1);
        assert(longer.drop_last() =~= chars@.subrange(start as int, end as int));
        let longer_value: u128 = value as u128 * 10 + digit as u128;
        end = end + 1;
        if longer_value > max as u128 {
            return None;
        }
        value = longer_value as u64;
    }
    Some((value, end))
}

/// Reads an unsigned decimal integer no larger than `max`: one or more
/// digits and nothing else.
pub fn parse_unsigned(text: &str, max: u64) -> (value: Option<u64>)
    ensures
        value is Some <==> unsigned_of(text@, max as nat) is Some,
        value is Some ==> value->0 == unsigned_of(text@, max as nat)->0,
{
    let chars = chars_of(text);
    match scan_digits(&chars, 0, max) {
        Some((value, end)) => {
            if end == chars.len() && end > 0 {
                assert(chars@.subrange(0, end as int) =~= text@);
                Some(value)
            } else {
                None
            }
        },
        None => {
            proof {
                let end = choose|end: int|
                    0 < end <= chars@.len() && all_digits(#[trigger] chars@.subrange(0, end))
                        && digits_value(chars@.subrange(0, end)) > max;
                assert(chars@.subrange(0, end) =~= text@.take(end));
                lemma_digits_value_grows(text@, end);
            }
            None
        },
    }
}

/// The number of fixed-point units in one: a fixed-point number counts
/// ten-thousandths.
pub const SCALE: u64 = 10_000;

/// The digit at place `i` of a fraction, zero beyond its end.
pub open spec fn place(fraction: Seq<char>, i: int) -> nat {
    if 0 <= i < fraction.len() {
        digit_value(fraction[i])
    } else {
        0
    }
}

/// What the digits after the point are worth in ten-thousandths: the first
/// four count, the others are cut off.
pub open spec fn fraction_value(fraction: Seq<char>) -> nat {
    1000 * place(fraction, 0) + 100 * place(fraction, 1) + 10 * place(fraction, 2) + place(
        fraction,
        3,
    )
}

/// Whether a numeral begins with a sign.
pub open spec fn is_signed(s: Seq<char>) -> bool {
    s.len() > 0 && (s[0] == '-' || s[0] == '+')
}

/// The numeral without its sign.
pub open spec fn unsigned_part(s: Seq<char>) -> Seq<char> {
    if is_signed(s) {
        s.skip(1)
    } else {
        s
    }
}

/// The place of the first point in `body`, or its length if it has none.
pub open spec fn point_of(body: Seq<char>) -> int {
    match body.index_of_first('.') {
        Some(i) => i,
        None => body.len() as int,
    }
}

/// What stands before the first point.
pub open spec fn whole_part(body: Seq<char>) -> Seq<char> {
    body.take(point_of(body))
}

/// What stands after the first point.
pub open spec fn fraction_part(body: Seq<char>) -> Seq<char> {
    if point_of(body) < body.len() {
        body.skip(point_of(body) + 1)
    } else {
        Seq::empty()
    }
}

/// `body` is a numeral without sign: digits, a point among or beside them
/// at most once, and one digit at least.
pub open spec fn is_unsigned_numeral(body: Seq<char>) -> bool {
    &&& all_digits(whole_part(body))
    &&& all_digits(fraction_part(body))
    &&& whole_part(body).len() + fraction_part(body).len() > 0
}

/// The value of a numeral without sign in ten-thousandths, cut off after
/// the fourth decimal place.
pub open spec fn magnitude_of(body: Seq<char>) -> nat {
    digits_value(whole_part(body)) * SCALE as nat + fraction_value(fraction_part(body))
}

/// `s` is a decimal numeral: an optional sign, then a numeral without sign.
pub open spec fn is_numeral(s: Seq<char>) -> bool {
    is_unsigned_numeral(unsigned_part(s))
}

/// The value of a numeral in ten-thousandths, cut off toward zero after the
/// fourth decimal place.
pub open spec fn numeral_value(s: Seq<char>) -> int {
    if s.len() > 0 && s[0] == '-' {
        -magnitude_of(unsigned_part(s))
    } else {
        magnitude_of(unsigned_part(s)) as int
    }
}

/// The fixed-point number that `s` denotes: its value in ten-thousandths,
/// where `s` is a numeral and the value fits in 64 bits.
pub open spec fn fixed_of(s: Seq<char>) -> Option<int> {
    if is_numeral(s) && i64::MIN <= numeral_value(s) <= i64::MAX {
        Some(numeral_value(s))
    } else {
        None
    }
}

/// The first point of `body` comes after any digits that it begins with.
proof fn lemma_point_after_digits(body: Seq<char>, p: int)
    requires
        0 <= p <= body.len(),
        all_digits(body.take(p)),
    ensures
        p <= point_of(body) <= body.len(),
        0 <= p < body.len() && body[p] != '.' ==> p < point_of(body),
        p == body.len() || body[p] == '.' ==> p == point_of(body),
{
    body.index_of_first_ensures('.');
    match body.index_of_first('.') {
        Some(i) => {
            if i < p {
                assert(is_digit(body.take(p)[i]));
            }
        },
        None => {
            if p < body.len() {
                assert(body.contains(body[p]));
            }
        },
    }
}

/// Whether `chars` holds digits only from `start` on.
fn digits_to_end(chars: &Vec<char>, start: usize) -> (clean: bool)
    requires
        start <= chars@.len(),
    ensures
        clean == all_digits(chars@.skip(start as int)),
{
    let mut at: usize = start;
    while at < chars.len()
        invariant
            start <= at <= chars@.len(),
            all_digits(chars@.subrange(start as int, at as int)),
        decreases chars@.len() - at,
    {
        if digit_of(chars[at]).is_none() {
            assert(chars@.skip(start as int)[at - start] == chars@[at as int]);
            return false;
        }
        at = at + 1;
    }
    assert(chars@.skip(start as int) =~= chars@.subrange(start as int, at as int));
    true
}

/// The digit of `chars` at `at`, zero where `at` is beyond the end.
fn place_at(chars: &Vec<char>, start: usize, i: usize) -> (digit: u64)
    requires
        start <= chars@.len(),
        i < 4,
        all_digits(chars@.skip(start as int)),
    ensures
        digit == place(chars@.skip(start as int), i as int),
        digit <= 9,
{
    if i < chars.len() - start {
        assert(chars@.skip(start as int)[i as int] == chars@[start + i]);
        match digit_of(chars[start + i]) {
            Some(digit) => digit as u64,
            None => 0,
        }
    } else {
        0
    }
}

/// The largest whole part of a numeral whose value may fit in 64 bits.
const WHOLE_MAX: u64 = 922_337_203_685_477;

/// A numeral that begins with digits of a number beyond `WHOLE_MAX` has a
/// value beyond every number of 64 bits.
proof fn lemma_whole_too_large(body: Seq<char>, p: int)
    requires
        0 <= p <= body.len(),
        all_digits(body.take(p)),
        digits_value(body.take(p)) > WHOLE_MAX,
        is_unsigned_numeral(body),
    ensures
        magnitude_of(body) > 0x8000_0000_0000_0000,
{
    lemma_point_after_digits(body, p);
    assert(whole_part(body).take(p) =~= body.take(p));
    lemma_digits_value_grows(whole_part(body), p);
}

/// What the digits of `chars` from `start` on are worth as decimal places,
/// if they are digits.
fn scan_fraction(chars: &Vec<char>, start: usize) -> (fraction: Option<u64>)
    requires
        start <= chars@.len(),
    ensures
        fraction is Some <==> all_digits(chars@.skip(start as int)),
        fraction is Some ==> fraction->0 == fraction_value(chars@.skip(start as int)),
        fraction is Some ==> fraction->0 < SCALE,
{
    if digits_to_end(chars, start) {
        Some(
            1000 * place_at(chars, start, 0) + 100 * place_at(chars, start, 1) + 10 * place_at(
                chars,
                start,
                2,
            ) + place_at(chars, start, 3),
        )
    } else {
        None
    }
}

/// Reads a numeral without sign from `chars`, from `start` on: its value in
/// ten-thousandths, if it is one and the value is at most the largest
/// magnitude of 64 bits.
fn scan_magnitude(chars: &Vec<char>, start: usize) -> (magnitude: Option<u64>)
    requires
        start <= chars@.len(),
    ensures
        magnitude is Some <==> is_unsigned_numeral(chars@.skip(start as int)) && magnitude_of(
            chars@.skip(start as int),
        ) <= 0x8000_0000_0000_0000,
        magnitude is Some ==> magnitude->0 == magnitude_of(chars@.skip(start as int)),
{
    let len: usize = chars.len();
    let ghost body = chars@.skip(start as int);
    let (whole, point) = match scan_digits(chars, start, WHOLE_MAX) {
        Some(scanned) => scanned,
        None => {
            proof {
                let end = choose|end: int|
                    start < end <= chars@.len() && all_digits(
                        #[trigger] chars@.subrange(start as int, end),
                    ) && digits_value(chars@.subrange(start as int, end)) > WHOLE_MAX;
                assert(body.take(end - start) =~= chars@.subrange(start as int, end));
                if is_unsigned_numeral(body) {
                    lemma_whole_too_large(body, end - start);
                }
            }
            return None;
        },
    };
    let ghost p = point - start;
    proof {
        assert(body.take(p) =~= chars@.subrange(start as int, point as int));
        lemma_point_after_digits(body, p);
    }
    if point < len && chars[point] != '.' {
        assert(!is_digit(whole_part(body)[p]));
        return None;
    }
    let after: usize = if point < len {
        point + 1
    } else {
        len
    };
    assert(fraction_part(body) =~= chars@.skip(after as int));
    let fraction: u64 = match scan_fraction(chars, after) {
        Some(fraction) => fraction,
        None => {
            return None;
        },
    };
    if (point - start) + (len - after) == 0 {
        return None;
    }
    let magnitude: u64 = whole * SCALE + fraction;
    if magnitude > 0x8000_0000_0000_0000 {
        None
    } else {
        Some(magnitude)
    }
}

/// Reads a decimal numeral as a fixed-point number of ten-thousandths. What
/// follows the fourth decimal place is cut off, so the value is truncated
/// toward zero. `None` where `text` is no numeral or its value does not
/// fit.
pub fn parse_fixed(text: &str) -> (value: Option<i64>)
    ensures
        value is Some <==> fixed_of(text@) is Some,
        value is Some ==> value->0 == fixed_of(text@)->0,
{
    let chars = chars_of(text);
    let negative: bool = chars.len() > 0 && chars[0] == '-';
    let start: usize = if chars.len() > 0 && (chars[0] == '-' || chars[0] == '+') {
        1
    } else {
        0
    };
    assert(unsigned_part(text@) =~= chars@.skip(start as int));
    match scan_magnitude(&chars, start) {
        Some(magnitude) => {
            if negative {
                if magnitude == 0x8000_0000_0000_0000 {
                    Some(i64::MIN)
                } else {
                    Some(-(magnitude as i64))
                }
            } else if magnitude == 0x8000_0000_0000_0000 {
                None
            } else {
                Some(magnitude as i64)
            }
        },
        None => None,
    }
}

/// The character that stands for a digit.
pub open spec fn digit_char(digit: nat) -> char
    recommends
        digit < 10,
{
    seq!['0', '1', '2', '3', '4', '5', '6', '7', '8', '9'][digit as int]
}

/// The decimal digits of a number, without leading zeros; zero is "0".
pub open spec fn decimal_text(n: nat) -> Seq<char>
    decreases n,
{
    if n < 10 {
        seq![digit_char(n)]
    } else {
        decimal_text(n / 10).push(digit_char(n % 10))
    }
}

/// The digits after the point for a number of ten-thousandths below one:
/// four places, of which zeros at the end are left out, but not the first
/// place.
pub open spec fn fraction_text(f: nat) -> Seq<char>
    recommends
        f < SCALE,
{
    let d3 = f % 10;
    let d2 = f / 10 % 10;
    let d1 = f / 10 / 10 % 10;
    let d0 = f / 10 / 10 / 10;
    if d3 != 0 {
        seq![digit_char(d0), digit_char(d1), digit_char(d2), digit_char(d3)]
    } else if d2 != 0 {
        seq![digit_char(d0), digit_char(d1), digit_char(d2)]
    } else if d1 != 0 {
        seq![digit_char(d0), digit_char(d1)]
    } else {
        seq![digit_char(d0)]
    }
}

/// The numeral written for a fixed-point number of ten-thousandths: a minus
/// sign where it is negative, the whole part, a point, and one to four
/// decimal places.
pub open spec fn fixed_text(value: int) -> Seq<char> {
    let magnitude = if value < 0 {
        (-value) as nat
    } else {
        value as nat
    };
    let unsigned = decimal_text(magnitude / SCALE as nat) + seq!['.'] + fraction_text(
        magnitude % SCALE as nat,
    );
    if value < 0 {
        seq!['-'] + unsigned
    } else {
        unsigned
    }
}

/// The one-character string of a digit.
fn digit_str(digit: u8) -> (text: &'static str)
    requires
        digit < 10,
    ensures
        text@ == seq![digit_char(digit as nat)],
{
    proof {
        reveal_strlit("0");
        reveal_strlit("1");
        reveal_strlit("2");
        reveal_strlit("3");
        reveal_strlit("4");
        reveal_strlit("5");
        reveal_strlit("6");
        reveal_strlit("7");
        reveal_strlit("8");
        reveal_strlit("9");
    }
    let text = match digit {
        0 => "0",
        1 => "1",
        2 => "2",
        3 => "3",
        4 => "4",
        5 => "5",
        6 => "6",
        7 => "7",
        8 => "8",
        _ => "9",
    };
    assert(text@ =~= seq![digit_char(digit as nat)]);
    text
}

/// Appends the decimal digits of `n` to `out`.
fn push_decimal(out: &mut String, n: u128)
    ensures
        final(out)@ == old(out)@ + decimal_text(n as nat),
    decreases n,
{
    if n >= 10 {
        push_decimal(out, n / 10);
    }
    out.append(digit_str((n % 10) as u8));
    assert(out@ =~= old(out)@ + decimal_text(n as nat));
}

/// Appends the decimal places of `f` ten-thousandths to `out`.
fn push_fraction(out: &mut String, f: u16)
    requires
        f < SCALE,
    ensures
        final(out)@ == old(out)@ + fraction_text(f as nat),
{
    let d3: u8 = (f % 10) as u8;
    let d2: u8 = (f / 10 % 10) as u8;
    let d1: u8 = (f / 10 / 10 % 10) as u8;
    let d0: u8 = (f / 10 / 10 / 10) as u8;
    out.append(digit_str(d0));
    if d1 != 0 || d2 != 0 || d3 != 0 {
        out.append(digit_str(d1));
        if d2 != 0 || d3 != 0 {
            out.append(digit_str(d2));
            if d3 != 0 {
                out.append(digit_str(d3));
            }
        }
    }
    assert(out@ =~= old(out)@ + fraction_text(f as nat));
}

/// Writes a fixed-point number of ten-thousandths as a decimal numeral with
/// one to four decimal places.
pub fn format_fixed(value: i128) -> (text: String)
    ensures
        text@ == fixed_text(value as int),
{
    let mut text = String::new();
    let magnitude: u128 = if value < 0 {
        proof {
            reveal_strlit("-");
        }
        text.append("-");
        (-(value + 1)) as u128 + 1
    } else {
        value as u128
    };
    push_decimal(&mut text, magnitude / SCALE as u128);
    proof {
        reveal_strlit(".");
    }
    text.append(".");
    push_fraction(&mut text, (magnitude % SCALE as u128) as u16);
    assert(text@ =~= fixed_text(value as int));
    text
}

/// The character of a digit is a digit and stands for it.
pub proof fn lemma_digit_char(digit: nat)
    requires
        digit < 10,
    ensures
        is_digit(digit_char(digit)),
        digit_value(digit_char(digit)) == digit,
{
    let digits = seq!['0', '1', '2', '3', '4', '5', '6', '7', '8', '9'];
    assert(digits[0] == '0' && digits[1] == '1' && digits[2] == '2' && digits[3] == '3'
        && digits[4] == '4');
    assert(digits[5] == '5' && digits[6] == '6' && digits[7] == '7' && digits[8] == '8'
        && digits[9] == '9');
}

/// The digits written for a number denote that number.
pub proof fn lemma_decimal_text_value(n: nat)
    ensures
        decimal_text(n).len() > 0,
        all_digits(decimal_text(n)),
        digits_value(decimal_text(n)) == n,
    decreases n,
{
    let text = decimal_text(n);
    lemma_digit_char(n % 10);
    assert(text.last() == digit_char(n % 10));
    if n < 10 {
        assert(text.drop_last() =~= Seq::<char>::empty());
        assert(digits_value(text.drop_last()) == 0);
    } else {
        lemma_decimal_text_value(n / 10);
        assert(text.drop_last() =~= decimal_text(n / 10));
    }
    assert(digits_value(text) == 10 * digits_value(text.drop_last()) + digit_value(text.last()));
}

/// The decimal places written for a number of ten-thousandths are worth
/// that number.
pub proof fn lemma_fraction_text_value(f: nat)
    requires
        f < SCALE,
    ensures
        1 <= fraction_text(f).len() <= 4,
        all_digits(fraction_text(f)),
        fraction_value(fraction_text(f)) == f,
{
    let d3 = f % 10;
    let d2 = f / 10 % 10;
    let d1 = f / 10 / 10 % 10;
    let d0 = f / 10 / 10 / 10;
    lemma_digit_char(d0);
    lemma_digit_char(d1);
    lemma_digit_char(d2);
    lemma_digit_char(d3);
    let text = fraction_text(f);
    assert(place(text, 0) == d0);
    assert(place(text, 1) == d1);
    assert(place(text, 2) == d2);
    assert(place(text, 3) == d3);
}

/// Writing a fixed-point number and reading the numeral again gives the
/// number back.
pub proof fn lemma_read_inverts_write(value: int)
    ensures
        is_numeral(fixed_text(value)),
        numeral_value(fixed_text(value)) == value,
        i64::MIN <= value <= i64::MAX ==> fixed_of(fixed_text(value)) == Some(value),
{
    let magnitude = if value < 0 {
        (-value) as nat
    } else {
        value as nat
    };
    let whole = decimal_text(magnitude / SCALE as nat);
    let fraction = fraction_text(magnitude % SCALE as nat);
    let text = fixed_text(value);
    let body = whole + seq!['.'] + fraction;
    lemma_decimal_text_value(magnitude / SCALE as nat);
    lemma_fraction_text_value(magnitude % SCALE as nat);
    if value < 0 {
        assert(text[0] == '-');
        assert(text.skip(1) =~= body);
    } else {
        assert(text[0] == whole[0]);
        assert(is_digit(whole[0]));
    }
    assert(unsigned_part(text) == body);
    assert(body.take(whole.len() as int) =~= whole);
    assert(body[whole.len() as int] == '.');
    lemma_point_after_digits(body, whole.len() as int);
    assert(whole_part(body) =~= whole);
    assert(fraction_part(body) =~= fraction);
}

/// Decimal places after the fourth do not count: a numeral and the numeral
/// cut off after `keep` places, four or more, have the same value.
pub proof fn lemma_places_cut_off(s: Seq<char>, keep: int)
    requires
        is_numeral(s),
        4 <= keep <= fraction_part(unsigned_part(s)).len(),
    ensures
        is_numeral(s.take(s.len() - fraction_part(unsigned_part(s)).len() + keep)),
        fixed_of(s.take(s.len() - fraction_part(unsigned_part(s)).len() + keep)) == fixed_of(s),
{
    let body = unsigned_part(s);
    let fraction = fraction_part(body);
    let cut = s.take(s.len() - fraction.len() + keep);
    let cut_body = unsigned_part(cut);
    let p = point_of(body);
    body.index_of_first_ensures('.');
    assert(cut_body =~= body.take(body.len() - fraction.len() + keep));
    assert(cut_body.take(p) =~= whole_part(body));
    lemma_point_after_digits(cut_body, p);
    assert(whole_part(cut_body) =~= whole_part(body));
    assert(fraction_part(cut_body) =~= fraction.take(keep));
}

/// The digits of a numeral, those before the point followed by those after
/// it. With `k` digits after the point the numeral denotes the number of its
/// digits divided by the `k`th power of ten.
pub open spec fn numeral_digits(s: Seq<char>) -> Seq<char> {
    whole_part(unsigned_part(s)) + fraction_part(unsigned_part(s))
}

/// One more digit at the end makes the number ten times as large, and the
/// digit more.
proof fn lemma_digits_value_step(s: Seq<char>, n: int)
    requires
        0 <= n < s.len(),
    ensures
        digits_value(s.take(n + 1)) == 10 * digits_value(s.take(n)) + digit_value(s[n]),
{
    assert(s.take(n + 1).drop_last() =~= s.take(n));
}

/// A string of `n` digits denotes a number below the `n`th power of ten.
proof fn lemma_digits_value_below_power(s: Seq<char>)
    requires
        all_digits(s),
    ensures
        digits_value(s) < pow(10, s.len()),
    decreases s.len(),
{
    if s.len() == 0 {
        lemma_pow0(10);
    } else {
        lemma_digits_value_below_power(s.drop_last());
        assert(is_digit(s.last()));
        assert(pow(10, s.len()) == 10 * pow(10, (s.len() - 1) as nat)) by {
            reveal(pow);
        }
    }
}

/// The number of two strings of digits, one after the other.
proof fn lemma_digits_value_joined(a: Seq<char>, b: Seq<char>)
    ensures
        digits_value(a + b) == digits_value(a) * pow(10, b.len()) + digits_value(b),
    decreases b.len(),
{
    if b.len() == 0 {
        lemma_pow0(10);
        assert(a + b =~= a);
    } else {
        lemma_digits_value_joined(a, b.drop_last());
        assert((a + b).drop_last() =~= a + b.drop_last());
        assert(pow(10, b.len()) == 10 * pow(10, (b.len() - 1) as nat)) by {
            reveal(pow);
        }
        let high = digits_value(a);
        let power = pow(10, (b.len() - 1) as nat);
        assert(10 * (high * power) == high * (10 * power)) by (nonlinear_arith);
    }
}

/// The first four places of a fraction are worth the number of its first
/// four digits; a fraction of fewer places is worth the number of its
/// digits times the power of ten for the places that it lacks.
proof fn lemma_fraction_value_is_digits(fraction: Seq<char>)
    ensures
        fraction.len() <= 4 ==> fraction_value(fraction) == digits_value(fraction) * pow(
            10,
            (4 - fraction.len()) as nat,
        ),
        fraction.len() >= 4 ==> fraction_value(fraction) == digits_value(fraction.take(4)),
{
    let n = fraction.len() as int;
    let shown = if n < 4 {
        n
    } else {
        4
    };
    assert(digits_value(fraction.take(0)) == 0);
    if shown >= 1 {
        lemma_digits_value_step(fraction, 0);
    }
    if shown >= 2 {
        lemma_digits_value_step(fraction, 1);
    }
    if shown >= 3 {
        lemma_digits_value_step(fraction, 2);
    }
    if shown >= 4 {
        lemma_digits_value_step(fraction, 3);
    }
    assert(pow(10, 0) == 1 && pow(10, 1) == 10 && pow(10, 2) == 100 && pow(10, 3) == 1000 && pow(
        10,
        4,
    ) == 10000) by {
        reveal_with_fuel(pow, 5);
    }
    if n <= 4 {
        assert(fraction.take(n) =~= fraction);
    }
}

/// The value of a numeral is the number it denotes, in ten-thousandths, cut
/// off toward zero: with up to four decimal places nothing is lost, and
/// every place beyond the fourth divides the number of the digits by ten,
/// the remainder dropped.
pub proof fn lemma_value_is_truncation(s: Seq<char>)
    requires
        is_numeral(s),
    ensures
        ({
            let places = fraction_part(unsigned_part(s)).len();
            let digits = digits_value(numeral_digits(s)) as int;
            let magnitude = if s.len() > 0 && s[0] == '-' {
                -numeral_value(s)
            } else {
                numeral_value(s)
            };
            &&& magnitude >= 0
            &&& places <= 4 ==> magnitude == digits * pow(10, (4 - places) as nat)
            &&& places >= 4 ==> magnitude == digits / pow(10, (places - 4) as nat)
        }),
{
    let whole = whole_part(unsigned_part(s));
    let fraction = fraction_part(unsigned_part(s));
    let places = fraction.len();
    let high = digits_value(whole) as int;
    let low = digits_value(fraction) as int;
    lemma_digits_value_joined(whole, fraction);
    lemma_fraction_value_is_digits(fraction);
    assert(pow(10, 4) == 10000) by {
        reveal_with_fuel(pow, 5);
    }
    if places <= 4 {
        let lacking = (4 - places) as nat;
        lemma_pow_adds(10, places, lacking);
        let power = pow(10, places);
        let rest = pow(10, lacking);
        assert((high * power + low) * rest == high * (power * rest) + low * rest)
            by (nonlinear_arith);
    }
    if places >= 4 {
        let beyond = (places - 4) as nat;
        let kept = fraction.take(4);
        let dropped = fraction.skip(4);
        assert(kept + dropped =~= fraction);
        lemma_digits_value_joined(kept, dropped);
        assert(all_digits(dropped)) by {
            assert forall|i: int| 0 <= i < dropped.len() implies is_digit(#[trigger] dropped[i]) by {
                assert(is_digit(fraction[i + 4]));
            }
        }
        lemma_digits_value_below_power(dropped);
        lemma_pow_adds(10, 4, beyond);
        lemma_pow_positive(10, beyond);
        let unit = pow(10, beyond);
        let shown = digits_value(kept) as int;
        let lost = digits_value(dropped) as int;
        assert(high * (10000 * unit) + (shown * unit + lost) == (high * 10000 + shown) * unit
            + lost) by (nonlinear_arith);
        lemma_fundamental_div_mod_converse(
            digits_value(whole + fraction) as int,
            unit,
            high * 10000 + shown,
            lost,
        );
    }
}

/// A numeral of at most four decimal places loses nothing when it is read
/// and written again: its value is the number it denotes, in
/// ten-thousandths, and what is written for that value is a numeral of the
/// same value.
pub proof fn lemma_short_numeral_survives(s: Seq<char>)
    requires
        is_numeral(s),
        fraction_part(unsigned_part(s)).len() <= 4,
    ensures
        magnitude_of(unsigned_part(s)) == digits_value(numeral_digits(s)) * pow(
            10,
            (4 - fraction_part(unsigned_part(s)).len()) as nat,
        ),
        is_numeral(fixed_text(numeral_value(s))),
        numeral_value(fixed_text(numeral_value(s))) == numeral_value(s),
{
    lemma_value_is_truncation(s);
    lemma_read_inverts_write(numeral_value(s));
}

} // verus!
