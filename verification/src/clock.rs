//! The moment a snapshot is taken, and how a snapshot's name carries it.
//!
//! A timestamp is the year, the month, the day, a `T`, the hour, the minute and the
//! second, each but the year in two digits and the year in four: fifteen characters that
//! sort as the moments do. A year outside 0 to 9999 takes a sign and as many digits as
//! it needs.

use vstd::prelude::*;
use vstd::utf8::{encode_utf8, is_ascii_chars, is_ascii_chars_encode_utf8};
use chrono::{Datelike, Timelike};
use crate::content_hash::{hex_digit, hex_digit_text};
use crate::key_order::{
    bytes_lt, key_lt, lemma_bytes_lt_after_common_prefix, lemma_bytes_lt_irreflexive,
};
use crate::naming::lemma_encode_joined;

verus! {

/// A reading of the clock in UTC, to the second.
#[derive(Clone, Copy, Debug, PartialEq, Eq)]
pub struct ClockReading {
    pub year: i32,
    pub month: u32,
    pub day: u32,
    pub hour: u32,
    pub minute: u32,
    pub second: u32,
}

impl ClockReading {
    /// The fields are those of a date and a time of day.
    pub open spec fn is_valid(&self) -> bool {
        &&& 1 <= self.month <= 12
        &&& 1 <= self.day <= 31
        &&& self.hour <= 23
        &&& self.minute <= 59
        &&& self.second <= 59
    }
}

/// `std::time::SystemTime::now`, turned into a date and a time of day in UTC by chrono's
/// conversion from a system time and read off field by field.
///
/// Trusted: the month is 1 to 12, the day 1 to 31, the hour 0 to 23, the minute and the
/// second 0 to 59, as chrono documents of these fields. Nothing more is claimed: the
/// reading depends on the clock. The conversion takes a clock before 1970 as well as
/// one after, within the years that chrono covers, 262143 either way.
#[verifier::external_body]
pub(crate) fn utc_now() -> (r: ClockReading)
    ensures
        r.is_valid(),
{
    let now = chrono::DateTime::<chrono::Utc>::from(std::time::SystemTime::now());
    ClockReading {
        year: now.year(),
        month: now.month(),
        day: now.day(),
        hour: now.hour(),
        minute: now.minute(),
        second: now.second(),
    }
}

/// The number `n` in decimal digits, with zeros in front where it has fewer than
/// `width` of them.
pub open spec fn decimal(n: nat, width: nat) -> Seq<char>
    decreases n + width,
{
    if n < 10 && width <= 1 {
        seq![hex_digit(n as u8)]
    } else {
        decimal(n / 10, if width > 0 { (width - 1) as nat } else { 0 }) + seq![
            hex_digit((n % 10) as u8),
        ]
    }
}

/// The year as a timestamp carries it: four digits for the years 0 to 9999, a sign and
/// at least four digits for any other.
pub open spec fn year_text(year: int) -> Seq<char> {
    if 0 <= year <= 9999 {
        decimal(year as nat, 4)
    } else if year > 9999 {
        seq!['+'] + decimal(year as nat, 4)
    } else {
        seq!['-'] + decimal((-year) as nat, 4)
    }
}

/// The timestamp of a reading.
pub open spec fn timestamp_text(t: ClockReading) -> Seq<char> {
    year_text(t.year as int) + decimal(t.month as nat, 2) + decimal(t.day as nat, 2) + seq!['T']
        + decimal(t.hour as nat, 2) + decimal(t.minute as nat, 2) + decimal(t.second as nat, 2)
}

/// A number takes at least `width` digits and at least one, and no more than `width`
/// where it is below ten to the power of `width`; here for the widths in use.
pub proof fn lemma_decimal_len(n: nat, width: nat)
    ensures
        decimal(n, width).len() >= width,
        decimal(n, width).len() >= 1,
        n < 100 ==> decimal(n, 2).len() == 2,
        n < 10000 ==> decimal(n, 4).len() == 4,
    decreases n + width,
{
    if !(n < 10 && width <= 1) {
        lemma_decimal_len(n / 10, if width > 0 { (width - 1) as nat } else { 0 });
    }
    reveal_with_fuel(decimal, 5);
}

/// The timestamp of a date and time of day has at least fifteen characters, and exactly
/// fifteen for the years 0 to 9999.
pub proof fn lemma_timestamp_len(t: ClockReading)
    requires
        t.is_valid(),
    ensures
        timestamp_text(t).len() >= 15,
        0 <= t.year <= 9999 ==> timestamp_text(t).len() == 15,
{
    lemma_decimal_len(t.month as nat, 2);
    lemma_decimal_len(t.day as nat, 2);
    lemma_decimal_len(t.hour as nat, 2);
    lemma_decimal_len(t.minute as nat, 2);
    lemma_decimal_len(t.second as nat, 2);
    if 0 <= t.year <= 9999 {
        lemma_decimal_len(t.year as nat, 4);
    } else if t.year > 9999 {
        lemma_decimal_len(t.year as nat, 4);
    } else {
        lemma_decimal_len((-t.year) as nat, 4);
    }
}

/// Writes `n` in decimal behind what `out` holds.
fn append_decimal(out: &mut String, n: u32, width: u32)
    ensures
        final(out)@ == old(out)@ + decimal(n as nat, width as nat),
    decreases n + width,
{
    if n >= 10 || width > 1 {
        let ghost before = out@;
        let rest: u32 = if width > 0 { width - 1 } else { 0 };
        append_decimal(out, n / 10, rest);
        out.append(hex_digit_text((n % 10) as u8));
        assert(out@ =~= before + decimal(n as nat, width as nat));
    } else {
        out.append(hex_digit_text(n as u8));
    }
}

/// The timestamp of a reading, as text.
pub fn timestamp(t: &ClockReading) -> (r: String)
    ensures
        r@ == timestamp_text(*t),
{
    let mut out = String::new();
    if t.year < 0 {
        out.append("-");
        let years: u32 = (-(t.year as i64)) as u32;
        append_decimal(&mut out, years, 4);
        proof {
            reveal_strlit("-");
            assert("-"@ =~= seq!['-']);
        }
    } else {
        if t.year > 9999 {
            out.append("+");
            proof {
                reveal_strlit("+");
                assert("+"@ =~= seq!['+']);
            }
        }
        append_decimal(&mut out, t.year as u32, 4);
    }
    assert(out@ =~= year_text(t.year as int));
    append_decimal(&mut out, t.month, 2);
    append_decimal(&mut out, t.day, 2);
    out.append("T");
    proof {
        reveal_strlit("T");
        assert("T"@ =~= seq!['T']);
    }
    append_decimal(&mut out, t.hour, 2);
    append_decimal(&mut out, t.minute, 2);
    append_decimal(&mut out, t.second, 2);
    assert(out@ =~= timestamp_text(*t));
    out
}

/// The reading `a` is of an earlier second than the reading `b`.
pub open spec fn earlier(a: ClockReading, b: ClockReading) -> bool {
    if a.year != b.year {
        a.year < b.year
    } else if a.month != b.month {
        a.month < b.month
    } else if a.day != b.day {
        a.day < b.day
    } else if a.hour != b.hour {
        a.hour < b.hour
    } else if a.minute != b.minute {
        a.minute < b.minute
    } else {
        a.second < b.second
    }
}

/// Ten to the power of `width`.
pub open spec fn power_of_ten(width: nat) -> nat
    decreases width,
{
    if width == 0 {
        1
    } else {
        10 * power_of_ten((width - 1) as nat)
    }
}

/// Of two byte strings that begin with fields of the same length, the fields decide the
/// order where they differ, and what follows them where they are the same.
proof fn lemma_field_decides(fa: Seq<u8>, fb: Seq<u8>, ra: Seq<u8>, rb: Seq<u8>)
    requires
        fa.len() == fb.len(),
    ensures
        bytes_lt(fa, fb) ==> bytes_lt(fa + ra, fb + rb),
        fa == fb ==> bytes_lt(fa + ra, fb + rb) == bytes_lt(ra, rb),
    decreases fa.len(),
{
    if fa.len() == 0 {
        assert(fa =~= fb);
    }
    if fa == fb {
        lemma_bytes_lt_irreflexive(fa);
        lemma_bytes_lt_after_common_prefix(fa + ra, fb + rb, fa.len() as int);
        assert((fa + ra).skip(fa.len() as int) =~= ra);
        assert((fb + rb).skip(fa.len() as int) =~= rb);
    } else if fa.len() > 0 {
        if fa[0] == fb[0] {
            lemma_field_decides(fa.drop_first(), fb.drop_first(), ra, rb);
            assert((fa + ra).drop_first() =~= fa.drop_first() + ra);
            assert((fb + rb).drop_first() =~= fb.drop_first() + rb);
        }
        assert((fa + ra)[0] == fa[0]);
        assert((fb + rb)[0] == fb[0]);
    }
}

/// A digit is one byte in UTF-8, and the digits follow one another as their values do.
proof fn lemma_digit_byte(d: nat)
    requires
        d < 10,
    ensures
        encode_utf8(seq![hex_digit(d as u8)]) == seq![(48 + d) as u8],
{
    let text = seq![hex_digit(d as u8)];
    assert(is_ascii_chars(text));
    is_ascii_chars_encode_utf8(text);
    assert(text[0] as u8 == encode_utf8(text)[0]);
    assert(encode_utf8(text) =~= seq![(48 + d) as u8]);
}

/// Numbers below ten to the power of `width` take `width` bytes, and the smaller number
/// comes first.
proof fn lemma_decimal_order(n: nat, m: nat, width: nat)
    requires
        width >= 1,
        n <= m < power_of_ten(width),
    ensures
        encode_utf8(decimal(n, width)).len() == width,
        encode_utf8(decimal(m, width)).len() == width,
        n < m ==> bytes_lt(encode_utf8(decimal(n, width)), encode_utf8(decimal(m, width))),
    decreases width,
{
    reveal_with_fuel(power_of_ten, 2);
    lemma_digit_byte(n % 10);
    lemma_digit_byte(m % 10);
    let low_n = seq![(48 + n % 10) as u8];
    let low_m = seq![(48 + m % 10) as u8];
    if width == 1 {
        assert(decimal(n, 1) =~= seq![hex_digit(n as u8)]);
        assert(decimal(m, 1) =~= seq![hex_digit(m as u8)]);
    } else {
        let rest = (width - 1) as nat;
        lemma_decimal_order(n / 10, m / 10, rest);
        let high_n = encode_utf8(decimal(n / 10, rest));
        let high_m = encode_utf8(decimal(m / 10, rest));
        lemma_encode_joined(decimal(n / 10, rest), seq![hex_digit((n % 10) as u8)]);
        lemma_encode_joined(decimal(m / 10, rest), seq![hex_digit((m % 10) as u8)]);
        assert(encode_utf8(decimal(n, width)) == high_n + low_n);
        assert(encode_utf8(decimal(m, width)) == high_m + low_m);
        lemma_field_decides(high_n, high_m, low_n, low_m);
        if n < m && n / 10 == m / 10 {
            assert(bytes_lt(low_n, low_m));
        }
    }
}

/// What follows the year in a timestamp, from the field numbered `from` on: the month
/// is field 1, the `T` field 3, the second field 6.
spec fn fields_from(t: ClockReading, from: nat) -> Seq<char>
    decreases 7 - from,
{
    if from == 1 {
        decimal(t.month as nat, 2) + fields_from(t, 2)
    } else if from == 2 {
        decimal(t.day as nat, 2) + fields_from(t, 3)
    } else if from == 3 {
        seq!['T'] + fields_from(t, 4)
    } else if from == 4 {
        decimal(t.hour as nat, 2) + fields_from(t, 5)
    } else if from == 5 {
        decimal(t.minute as nat, 2) + fields_from(t, 6)
    } else if from == 6 {
        decimal(t.second as nat, 2)
    } else {
        Seq::empty()
    }
}

/// Two texts that begin with numbers of the same width: the smaller number comes first,
/// and behind equal numbers what follows decides.
proof fn lemma_number_decides(n: nat, m: nat, width: nat, ra: Seq<char>, rb: Seq<char>)
    requires
        width >= 1,
        n < power_of_ten(width),
        m < power_of_ten(width),
    ensures
        n < m ==> key_lt(decimal(n, width) + ra, decimal(m, width) + rb),
        n == m ==> key_lt(decimal(n, width) + ra, decimal(m, width) + rb) == key_lt(ra, rb),
{
    lemma_encode_joined(decimal(n, width), ra);
    lemma_encode_joined(decimal(m, width), rb);
    if n <= m {
        lemma_decimal_order(n, m, width);
    } else {
        lemma_decimal_order(m, n, width);
    }
    lemma_field_decides(
        encode_utf8(decimal(n, width)),
        encode_utf8(decimal(m, width)),
        encode_utf8(ra),
        encode_utf8(rb),
    );
}

/// Timestamps sort as their moments do: of two dates and times of day in the years 0
/// to 9999, the earlier has the timestamp that comes first in the order of strings.
pub proof fn lemma_timestamps_sort(a: ClockReading, b: ClockReading)
    requires
        a.is_valid(),
        b.is_valid(),
        0 <= a.year <= 9999,
        0 <= b.year <= 9999,
        earlier(a, b),
    ensures
        key_lt(timestamp_text(a), timestamp_text(b)),
{
    reveal_with_fuel(power_of_ten, 5);
    reveal_with_fuel(fields_from, 7);
    assert(timestamp_text(a) =~= decimal(a.year as nat, 4) + fields_from(a, 1));
    assert(timestamp_text(b) =~= decimal(b.year as nat, 4) + fields_from(b, 1));
    lemma_number_decides(a.year as nat, b.year as nat, 4, fields_from(a, 1), fields_from(b, 1));
    lemma_number_decides(a.month as nat, b.month as nat, 2, fields_from(a, 2), fields_from(b, 2));
    lemma_number_decides(a.day as nat, b.day as nat, 2, fields_from(a, 3), fields_from(b, 3));
    lemma_encode_joined(seq!['T'], fields_from(a, 4));
    lemma_encode_joined(seq!['T'], fields_from(b, 4));
    lemma_field_decides(
        encode_utf8(seq!['T']),
        encode_utf8(seq!['T']),
        encode_utf8(fields_from(a, 4)),
        encode_utf8(fields_from(b, 4)),
    );
    lemma_number_decides(a.hour as nat, b.hour as nat, 2, fields_from(a, 5), fields_from(b, 5));
    lemma_number_decides(a.minute as nat, b.minute as nat, 2, fields_from(a, 6), fields_from(b, 6));
    lemma_number_decides(a.second as nat, b.second as nat, 2, Seq::empty(), Seq::empty());
    assert(decimal(a.second as nat, 2) + Seq::<char>::empty() =~= fields_from(a, 6));
    assert(decimal(b.second as nat, 2) + Seq::<char>::empty() =~= fields_from(b, 6));
}

} // verus!
