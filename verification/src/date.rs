//! A flexible point-in-time value.
//!
//! Input accepts either a date-only string (`YYYY-MM-DD`) or a full
//! timestamp (`YYYY-MM-DDTHH:MM:SSZ`, or with a `+HH:MM` / `-HH:MM`
//! offset, which is normalized to UTC). Output is always the date-only
//! form.

use chrono::Datelike;
use chrono::Timelike;
use vstd::prelude::*;
use crate::text::{
    all_digits, chars_of, dec_str, dec_val, dec_val_acc, digit_val, is_digit, lemma_dec_str_val,
    lemma_zero_pad, slice_range, string_of, zero_pad, format_u32, extend_chars,
};

verus! {

/// A point in time, kept as plain calendar fields in UTC.
#[derive(Debug, Clone, Copy, PartialEq, Eq, Structural)]
pub struct FlexibleDate {
    pub year: u32,
    pub month: u32,
    pub day: u32,
    pub hour: u32,
    pub minute: u32,
    pub second: u32,
}

/// A leap year of the Gregorian calendar.
pub open spec fn is_leap_year(y: int) -> bool {
    y % 4 == 0 && (y % 100 != 0 || y % 400 == 0)
}

/// Days in a month of the Gregorian calendar.
pub open spec fn days_in_month(y: int, m: int) -> int {
    if m == 2 {
        if is_leap_year(y) {
            29
        } else {
            28
        }
    } else if m == 4 || m == 6 || m == 9 || m == 11 {
        30
    } else {
        31
    }
}

impl FlexibleDate {
    /// A well-formed date: valid calendar fields, year of at most
    /// four digits, time of day within bounds.
    pub open spec fn wf(self) -> bool {
        &&& self.year <= 9999
        &&& 1 <= self.month <= 12
        &&& 1 <= self.day <= days_in_month(self.year as int, self.month as int)
        &&& self.hour < 24
        &&& self.minute < 60
        &&& self.second < 60
    }

    /// The same instant with the time of day dropped.
    pub open spec fn date_part(self) -> FlexibleDate {
        FlexibleDate {
            year: self.year,
            month: self.month,
            day: self.day,
            hour: 0,
            minute: 0,
            second: 0,
        }
    }
}

/// Executable check of the calendar bounds.
pub fn check_date_fields(year: u32, month: u32, day: u32) -> (r: bool)
    ensures
        r == (year <= 9999 && 1 <= month <= 12 && 1 <= day <= days_in_month(
            year as int,
            month as int,
        )),
{
    if year > 9999 || month < 1 || month > 12 || day < 1 {
        return false;
    }
    let dim: u32 = if month == 2 {
        if year % 4 == 0 && (year % 100 != 0 || year % 400 == 0) {
            29
        } else {
            28
        }
    } else if month == 4 || month == 6 || month == 9 || month == 11 {
        30
    } else {
        31
    };
    day <= dim
}

/// The date-only rendering `YYYY-MM-DD` of a date.
pub open spec fn date_only_str(d: FlexibleDate) -> Seq<char> {
    zero_pad(dec_str(d.year as int), 4) + seq!['-'] + zero_pad(dec_str(d.month as int), 2)
        + seq!['-'] + zero_pad(dec_str(d.day as int), 2)
}

/// Left-pad the decimal digits of `n` with zeros to width `w`.
pub fn format_padded(n: u32, w: usize) -> (r: Vec<char>)
    ensures
        r@ == zero_pad(dec_str(n as int), w as int),
{
    let mut digits = format_u32(n);
    proof {
        lemma_dec_str_val(n as int);
    }
    while digits.len() < w
        invariant
            zero_pad(digits@, w as int) == zero_pad(dec_str(n as int), w as int),
            digits@.len() >= 1,
        decreases w - digits@.len(),
    {
        let ghost before = digits@;
        digits.insert(0, '0');
        proof {
            assert(digit_val('0') == 0);
            assert(crate::text::digit_char(0) == '0');
            assert(digits@ =~= seq![crate::text::digit_char(0)] + before);
        }
    }
    proof {
        assert(zero_pad(digits@, w as int) == digits@);
    }
    digits
}

/// Render a date in the date-only form.
pub fn render_date_only(d: &FlexibleDate) -> (r: Vec<char>)
    ensures
        r@ == date_only_str(*d),
{
    let mut r = format_padded(d.year, 4);
    r.push('-');
    let m = format_padded(d.month, 2);
    extend_chars(&mut r, &m);
    r.push('-');
    let dd = format_padded(d.day, 2);
    extend_chars(&mut r, &dd);
    proof {
        assert(r@ =~= date_only_str(*d));
    }
    r
}

/// The numeric value of the two digits at position `i`.
pub open spec fn two_val(s: Seq<char>, i: int) -> int {
    digit_val(s[i]) * 10 + digit_val(s[i + 1])
}

/// The numeric value of the four digits at position `i`.
pub open spec fn four_val(s: Seq<char>, i: int) -> int {
    ((digit_val(s[i]) * 10 + digit_val(s[i + 1])) * 10 + digit_val(s[i + 2])) * 10 + digit_val(
        s[i + 3],
    )
}

/// The shape `YYYY-MM-DD` at the start of `s`.
pub open spec fn date_shape(s: Seq<char>) -> bool {
    &&& s.len() >= 10
    &&& is_digit(s[0]) && is_digit(s[1]) && is_digit(s[2]) && is_digit(s[3])
    &&& s[4] == '-'
    &&& is_digit(s[5]) && is_digit(s[6])
    &&& s[7] == '-'
    &&& is_digit(s[8]) && is_digit(s[9])
}

/// The shape `HH:MM:SS` at position `i` of `s`.
pub open spec fn time_shape(s: Seq<char>, i: int) -> bool {
    &&& i + 8 <= s.len()
    &&& is_digit(s[i]) && is_digit(s[i + 1])
    &&& s[i + 2] == ':'
    &&& is_digit(s[i + 3]) && is_digit(s[i + 4])
    &&& s[i + 5] == ':'
    &&& is_digit(s[i + 6]) && is_digit(s[i + 7])
}

/// The calendar day before the given day.
pub open spec fn prev_day(d: FlexibleDate) -> FlexibleDate {
    if d.day > 1 {
        FlexibleDate { day: (d.day - 1) as u32, ..d }
    } else if d.month > 1 {
        FlexibleDate {
            month: (d.month - 1) as u32,
            day: days_in_month(d.year as int, d.month - 1) as u32,
            ..d
        }
    } else {
        FlexibleDate {
            year: if d.year > 0 {
                (d.year - 1) as u32
            } else {
                0
            },
            month: 12,
            day: 31,
            ..d
        }
    }
}

/// The calendar day after the given day.
pub open spec fn next_day(d: FlexibleDate) -> FlexibleDate {
    if d.day < days_in_month(d.year as int, d.month as int) {
        FlexibleDate { day: (d.day + 1) as u32, ..d }
    } else if d.month < 12 {
        FlexibleDate { month: (d.month + 1) as u32, day: 1, ..d }
    } else {
        FlexibleDate {
            year: if d.year < 9999 {
                (d.year + 1) as u32
            } else {
                9999
            },
            month: 1,
            day: 1,
            ..d
        }
    }
}

/// Shift a timestamp by minus `off_min` minutes (an offset east of UTC
/// is subtracted to reach UTC). `off_min` ranges over whole minutes of
/// at most a day.
pub open spec fn apply_offset(d: FlexibleDate, off_min: int) -> FlexibleDate {
    let total = d.hour * 60 + d.minute - off_min;
    if total < 0 {
        let t2 = total + 1440;
        FlexibleDate {
            hour: (t2 / 60) as u32,
            minute: (t2 % 60) as u32,
            ..prev_day(d)
        }
    } else if total >= 1440 {
        let t2 = total - 1440;
        FlexibleDate {
            hour: (t2 / 60) as u32,
            minute: (t2 % 60) as u32,
            ..next_day(d)
        }
    } else {
        FlexibleDate { hour: (total / 60) as u32, minute: (total % 60) as u32, ..d }
    }
}

/// The end of the run of digits starting at `i`.
pub open spec fn digit_run_end(s: Seq<char>, i: int) -> int
    decreases s.len() - i,
{
    if i < 0 || i >= s.len() {
        i
    } else if is_digit(s[i]) {
        digit_run_end(s, i + 1)
    } else {
        i
    }
}

/// What parsing a date string yields: a date-only form, a timestamp in
/// UTC, or nothing.
pub open spec fn parse_date_spec(s: Seq<char>) -> Option<FlexibleDate> {
    if date_shape(s) && s.len() == 10 {
        let d = FlexibleDate {
            year: four_val(s, 0) as u32,
            month: two_val(s, 5) as u32,
            day: two_val(s, 8) as u32,
            hour: 0,
            minute: 0,
            second: 0,
        };
        if d.wf() {
            Some(d)
        } else {
            None
        }
    } else if date_shape(s) && s.len() >= 20 && (s[10] == 'T' || s[10] == 't') && time_shape(
        s,
        11,
    ) {
        let d = FlexibleDate {
            year: four_val(s, 0) as u32,
            month: two_val(s, 5) as u32,
            day: two_val(s, 8) as u32,
            hour: two_val(s, 11) as u32,
            minute: two_val(s, 14) as u32,
            second: two_val(s, 17) as u32,
        };
        // Fractional seconds are read past and dropped.
        let z = if s[19] == '.' {
            digit_run_end(s, 20)
        } else {
            19
        };
        if !(d.wf() && d.hour < 24 && d.minute < 60 && d.second < 60) {
            None
        } else if s[19] == '.' && z == 20 {
            None
        } else if s.len() == z + 1 && (s[z] == 'Z' || s[z] == 'z') {
            Some(d)
        } else if s.len() == z + 6 && (s[z] == '+' || s[z] == '-') && is_digit(s[z + 1])
            && is_digit(s[z + 2]) && s[z + 3] == ':' && is_digit(s[z + 4]) && is_digit(s[z + 5]) {
            let hh = two_val(s, z + 1);
            let mm = two_val(s, z + 4);
            if hh < 24 && mm < 60 {
                let off = if s[z] == '+' {
                    hh * 60 + mm
                } else {
                    -(hh * 60 + mm)
                };
                Some(apply_offset(d, off))
            } else {
                None
            }
        } else {
            None
        }
    } else {
        None
    }
}

/// Read the two digits at position `i`.
fn read_two(v: &Vec<char>, i: usize) -> (r: u32)
    requires
        i + 2 <= v@.len(),
        is_digit(v@[i as int]),
        is_digit(v@[i + 1]),
    ensures
        r == two_val(v@, i as int),
        r <= 99,
{
    let n = v.len();
    assert(i + 2 <= n);
    let a = (v[i] as u32) - 48;
    let j = i + 1;
    let b = (v[j] as u32) - 48;
    a * 10 + b
}

/// Parse a date string into its fields; `None` exactly on inputs the
/// grammar or the calendar rejects.
pub fn parse_date_chars(v: &Vec<char>) -> (r: Option<FlexibleDate>)
    ensures
        r == parse_date_spec(v@),
        r matches Some(d) ==> d.wf(),
{
    if v.len() < 10 {
        return None;
    }
    // The YYYY-MM-DD backbone.
    let mut k: usize = 0;
    while k < 10
        invariant
            v@.len() >= 10,
            k <= 10,
            forall|j: int| 0 <= j < k ==> (if j == 4 || j == 7 {
                v@[j] == '-'
            } else {
                is_digit(v@[j])
            }),
        decreases 10 - k,
    {
        let c = v[k];
        if k == 4 || k == 7 {
            if c != '-' {
                return None;
            }
        } else {
            if !('0' <= c && c <= '9') {
                return None;
            }
        }
        k = k + 1;
    }
    assert(date_shape(v@));
    let y2 = read_two(v, 0);
    let y1 = read_two(v, 2);
    let year = y2 * 100 + y1;
    proof {
        assert(year == four_val(v@, 0));
    }
    let month = read_two(v, 5);
    let day = read_two(v, 8);
    if v.len() == 10 {
        if check_date_fields(year, month, day) {
            let d = FlexibleDate { year, month, day, hour: 0, minute: 0, second: 0 };
            return Some(d);
        }
        return None;
    }
    if v.len() < 20 {
        return None;
    }
    let t = v[10];
    if !(t == 'T' || t == 't') {
        return None;
    }
    // The HH:MM:SS part.
    if !('0' <= v[11] && v[11] <= '9' && '0' <= v[12] && v[12] <= '9' && v[13] == ':') {
        return None;
    }
    if !('0' <= v[14] && v[14] <= '9' && '0' <= v[15] && v[15] <= '9' && v[16] == ':') {
        return None;
    }
    if !('0' <= v[17] && v[17] <= '9' && '0' <= v[18] && v[18] <= '9') {
        return None;
    }
    assert(time_shape(v@, 11));
    let hour = read_two(v, 11);
    let minute = read_two(v, 14);
    let second = read_two(v, 17);
    if !(check_date_fields(year, month, day) && hour < 24 && minute < 60 && second < 60) {
        return None;
    }
    let d = FlexibleDate { year, month, day, hour, minute, second };
    // Skip a fractional-second run, which the calendar value drops.
    let mut z: usize = 19;
    if v[19] == '.' {
        z = 20;
        let n = v.len();
        while z < n && '0' <= v[z] && v[z] <= '9'
            invariant
                20 <= z <= n,
                n == v@.len(),
                v@.len() >= 20,
                forall|k: int| 20 <= k < z ==> is_digit(#[trigger] v@[k]),
                digit_run_end(v@, 20) == digit_run_end(v@, z as int),
            decreases n - z,
        {
            z = z + 1;
        }
        proof {
            assert(digit_run_end(v@, z as int) == z as int);
        }
        if z == 20 {
            return None;
        }
    }
    let vn = v.len();
    if z == vn - 1 {
        let zc = v[z];
        if zc == 'Z' || zc == 'z' {
            return Some(d);
        }
        return None;
    }
    if !(vn >= 6 && z == vn - 6) {
        return None;
    }
    let sign = v[z];
    if !(sign == '+' || sign == '-') {
        return None;
    }
    if !('0' <= v[z + 1] && v[z + 1] <= '9' && '0' <= v[z + 2] && v[z + 2] <= '9' && v[z + 3]
        == ':') {
        return None;
    }
    if !('0' <= v[z + 4] && v[z + 4] <= '9' && '0' <= v[z + 5] && v[z + 5] <= '9') {
        return None;
    }
    let hh = read_two(v, z + 1);
    let mm = read_two(v, z + 4);
    if !(hh < 24 && mm < 60) {
        return None;
    }
    let shifted = shift_to_utc(&d, hh, mm, sign == '-');
    proof {
        let off = if v@[z as int] == '+' {
            hh * 60 + mm
        } else {
            -(hh as int * 60 + mm as int)
        };
        assert(shifted == apply_offset(d, off));
    }
    Some(shifted)
}

/// Executable form of [`apply_offset`] for an offset `sign hh:mm`.
fn shift_to_utc(d: &FlexibleDate, hh: u32, mm: u32, negative: bool) -> (r: FlexibleDate)
    requires
        d.wf(),
        hh < 24,
        mm < 60,
    ensures
        r == apply_offset(*d, if negative {
            -(hh as int * 60 + mm as int)
        } else {
            hh as int * 60 + mm as int
        }),
        r.wf(),
{
    let local: i32 = (d.hour * 60 + d.minute) as i32;
    let off: i32 = if negative {
        -((hh * 60 + mm) as i32)
    } else {
        (hh * 60 + mm) as i32
    };
    let total: i32 = local - off;
    if total < 0 {
        let t2 = total + 1440;
        let p = prev_day_exec(d);
        FlexibleDate { hour: (t2 / 60) as u32, minute: (t2 % 60) as u32, ..p }
    } else if total >= 1440 {
        let t2 = total - 1440;
        let nx = next_day_exec(d);
        FlexibleDate { hour: (t2 / 60) as u32, minute: (t2 % 60) as u32, ..nx }
    } else {
        FlexibleDate { hour: (total / 60) as u32, minute: (total % 60) as u32, ..*d }
    }
}

/// Executable form of [`prev_day`].
fn prev_day_exec(d: &FlexibleDate) -> (r: FlexibleDate)
    requires
        d.wf(),
    ensures
        r == prev_day(*d),
        r.year <= 9999 && 1 <= r.month <= 12 && 1 <= r.day <= days_in_month(
            r.year as int,
            r.month as int,
        ),
        r.hour == d.hour && r.minute == d.minute && r.second == d.second,
{
    if d.day > 1 {
        FlexibleDate { day: d.day - 1, ..*d }
    } else if d.month > 1 {
        let pm = d.month - 1;
        let dim: u32 = if pm == 2 {
            if d.year % 4 == 0 && (d.year % 100 != 0 || d.year % 400 == 0) {
                29
            } else {
                28
            }
        } else if pm == 4 || pm == 6 || pm == 9 || pm == 11 {
            30
        } else {
            31
        };
        FlexibleDate { month: pm, day: dim, ..*d }
    } else {
        FlexibleDate {
            year: if d.year > 0 {
                d.year - 1
            } else {
                0
            },
            month: 12,
            day: 31,
            ..*d
        }
    }
}

/// Executable form of [`next_day`].
fn next_day_exec(d: &FlexibleDate) -> (r: FlexibleDate)
    requires
        d.wf(),
    ensures
        r == next_day(*d),
        r.year <= 9999 && 1 <= r.month <= 12 && 1 <= r.day <= days_in_month(
            r.year as int,
            r.month as int,
        ),
        r.hour == d.hour && r.minute == d.minute && r.second == d.second,
{
    let dim: u32 = if d.month == 2 {
        if d.year % 4 == 0 && (d.year % 100 != 0 || d.year % 400 == 0) {
            29
        } else {
            28
        }
    } else if d.month == 4 || d.month == 6 || d.month == 9 || d.month == 11 {
        30
    } else {
        31
    };
    if d.day < dim {
        FlexibleDate { day: d.day + 1, ..*d }
    } else if d.month < 12 {
        FlexibleDate { month: d.month + 1, day: 1, ..*d }
    } else {
        FlexibleDate {
            year: if d.year < 9999 {
                d.year + 1
            } else {
                9999
            },
            month: 1,
            day: 1,
            ..*d
        }
    }
}

/// Parse a date from a string slice.
pub fn parse_date_str(s: &str) -> (r: Option<FlexibleDate>)
    ensures
        r == parse_date_spec(s@),
        r matches Some(d) ==> d.wf(),
{
    let v = chars_of(s);
    parse_date_chars(&v)
}

/// Render a date as its date-only string.
pub fn date_to_string(d: &FlexibleDate) -> (r: String)
    ensures
        r@ == date_only_str(*d),
{
    let v = render_date_only(d);
    string_of(&v)
}

/// The value of a two-digit string.
proof fn lemma_dec_val_2(s: Seq<char>)
    requires
        s.len() == 2,
    ensures
        dec_val(s) == digit_val(s[0]) * 10 + digit_val(s[1]),
{
    let a1 = 0 * 10 + digit_val(s[0]);
    assert(s.skip(1).skip(1) =~= Seq::<char>::empty());
    assert(dec_val_acc(s, 0) == dec_val_acc(s.skip(1), a1));
    assert(s.skip(1)[0] == s[1]);
    assert(dec_val_acc(s.skip(1), a1) == dec_val_acc(s.skip(1).skip(1), a1 * 10 + digit_val(s[1])));
}

/// The value of a four-digit string.
proof fn lemma_dec_val_4(s: Seq<char>)
    requires
        s.len() == 4,
    ensures
        dec_val(s) == ((digit_val(s[0]) * 10 + digit_val(s[1])) * 10 + digit_val(s[2])) * 10
            + digit_val(s[3]),
{
    let a1 = 0 * 10 + digit_val(s[0]);
    let a2 = a1 * 10 + digit_val(s[1]);
    let a3 = a2 * 10 + digit_val(s[2]);
    let a4 = a3 * 10 + digit_val(s[3]);
    assert(s.skip(1)[0] == s[1] && s.skip(1).skip(1)[0] == s[2] && s.skip(1).skip(1).skip(1)[0]
        == s[3]);
    assert(s.skip(1).skip(1) =~= s.skip(2));
    assert(s.skip(2).skip(1) =~= s.skip(3));
    assert(s.skip(3).skip(1) =~= Seq::<char>::empty());
    assert(s.skip(2)[0] == s[2]);
    assert(s.skip(3)[0] == s[3]);
    assert(dec_val_acc(s, 0) == dec_val_acc(s.skip(1), a1));
    assert(dec_val_acc(s.skip(1), a1) == dec_val_acc(s.skip(2), a2));
    assert(dec_val_acc(s.skip(2), a2) == dec_val_acc(s.skip(3), a3));
    assert(dec_val_acc(s.skip(3), a3) == dec_val_acc(Seq::<char>::empty(), a4));
    assert(dec_val_acc(Seq::<char>::empty(), a4) == a4);
}

/// The shape and the field values of the date-only rendering.
pub proof fn lemma_date_only_str_shape(d: FlexibleDate)
    requires
        d.wf(),
    ensures
        date_only_str(d).len() == 10,
        date_shape(date_only_str(d)),
        four_val(date_only_str(d), 0) == d.year,
        two_val(date_only_str(d), 5) == d.month,
        two_val(date_only_str(d), 8) == d.day,
        is_digit(date_only_str(d)[0]),
{
    lemma_dec_str_val(d.year as int);
    lemma_dec_str_val(d.month as int);
    lemma_dec_str_val(d.day as int);
    assert(crate::text::pow10(4) == 10000) by {
        assert(crate::text::pow10(0) == 1);
        assert(crate::text::pow10(1) == 10);
        assert(crate::text::pow10(2) == 100);
        assert(crate::text::pow10(3) == 1000);
    }
    assert(crate::text::pow10(2) == 100) by {
        assert(crate::text::pow10(0) == 1);
        assert(crate::text::pow10(1) == 10);
    }
    crate::text::lemma_dec_str_len(d.year as int, 4);
    crate::text::lemma_dec_str_len(d.month as int, 2);
    crate::text::lemma_dec_str_len(d.day as int, 2);
    lemma_zero_pad(dec_str(d.year as int), 4);
    lemma_zero_pad(dec_str(d.month as int), 2);
    lemma_zero_pad(dec_str(d.day as int), 2);
    let y4 = zero_pad(dec_str(d.year as int), 4);
    let m2 = zero_pad(dec_str(d.month as int), 2);
    let d2 = zero_pad(dec_str(d.day as int), 2);
    let s = date_only_str(d);
    assert(y4.len() == 4 && m2.len() == 2 && d2.len() == 2);
    assert(s.len() == 10);
    assert(s[0] == y4[0] && s[1] == y4[1] && s[2] == y4[2] && s[3] == y4[3]);
    assert(s[4] == '-');
    assert(s[5] == m2[0] && s[6] == m2[1]);
    assert(s[7] == '-');
    assert(s[8] == d2[0] && s[9] == d2[1]);
    lemma_dec_val_4(y4);
    lemma_dec_val_2(m2);
    lemma_dec_val_2(d2);
    assert(four_val(s, 0) == dec_val(y4));
    assert(two_val(s, 5) == dec_val(m2));
    assert(two_val(s, 8) == dec_val(d2));
}

/// The date-only rendering holds nothing but digits and dashes.
pub proof fn lemma_date_only_digits(d: FlexibleDate)
    requires
        d.wf(),
    ensures
        forall|i: int|
            0 <= i < date_only_str(d).len() ==> (is_digit(#[trigger] date_only_str(d)[i])
                || date_only_str(d)[i] == '-'),
{
    lemma_dec_str_val(d.year as int);
    lemma_dec_str_val(d.month as int);
    lemma_dec_str_val(d.day as int);
    lemma_zero_pad(dec_str(d.year as int), 4);
    lemma_zero_pad(dec_str(d.month as int), 2);
    lemma_zero_pad(dec_str(d.day as int), 2);
    let y4 = zero_pad(dec_str(d.year as int), 4);
    let m2 = zero_pad(dec_str(d.month as int), 2);
    let d2 = zero_pad(dec_str(d.day as int), 2);
    let s = date_only_str(d);
    assert forall|i: int| 0 <= i < s.len() implies (is_digit(#[trigger] s[i]) || s[i] == '-') by {
        if i < y4.len() {
            assert(s[i] == y4[i]);
        } else if i == y4.len() {
            assert(s[i] == '-');
        } else if i < y4.len() + 1 + m2.len() {
            assert(s[i] == m2[i - y4.len() - 1]);
        } else if i == y4.len() + 1 + m2.len() {
            assert(s[i] == '-');
        } else {
            assert(s[i] == d2[i - y4.len() - m2.len() - 2]);
        }
    }
}

/// Parsing the date-only rendering of a midnight date gives it back.
pub proof fn lemma_date_round_trip(d: FlexibleDate)
    requires
        d.wf(),
        d.hour == 0,
        d.minute == 0,
        d.second == 0,
    ensures
        parse_date_spec(date_only_str(d)) == Some(d),
{
    lemma_date_only_str_shape(d);
    let s = date_only_str(d);
    let p = FlexibleDate {
        year: four_val(s, 0) as u32,
        month: two_val(s, 5) as u32,
        day: two_val(s, 8) as u32,
        hour: 0,
        minute: 0,
        second: 0,
    };
    assert(p.year == d.year && p.month == d.month && p.day == d.day);
    assert(p == d);
    assert(p.wf());
}

/// Relies on the system clock read through
/// chrono::DateTime::from_timestamp (with the Datelike/Timelike
/// accessors): the current instant, split into calendar fields. Every
/// failure — a clock before the Unix epoch, or one beyond the
/// timestamp range — comes back as `None` instead of a panic.
#[verifier::external_body]
fn clock_now_fields() -> (r: Option<(i64, u32, u32, u32, u32, u32)>)
{
    let elapsed = match std::time::SystemTime::now().duration_since(std::time::UNIX_EPOCH) {
        Ok(d) => d,
        Err(_) => {
            return None;
        },
    };
    let secs = match i64::try_from(elapsed.as_secs()) {
        Ok(s) => s,
        Err(_) => {
            return None;
        },
    };
    let now = chrono::DateTime::from_timestamp(secs, 0)?;
    Some((now.year() as i64, now.month(), now.day(), now.hour(), now.minute(), now.second()))
}

/// The current instant as a well-formed date, falling back to the
/// epoch day when the clock cannot be read or reports something
/// outside the supported calendar range.
pub fn today() -> (r: FlexibleDate)
    ensures
        r.wf(),
{
    match clock_now_fields() {
        Some((y, m, d, h, mi, s)) => {
            if 0 <= y && y <= 9999 {
                let year = y as u32;
                if check_date_fields(year, m, d) && h < 24 && mi < 60 && s < 60 {
                    return FlexibleDate { year, month: m, day: d, hour: h, minute: mi, second: s };
                }
            }
        },
        None => {},
    }
    FlexibleDate { year: 1970, month: 1, day: 1, hour: 0, minute: 0, second: 0 }
}

} // verus!
