use vstd::prelude::*;
use crate::numerals::{dec_u, four_digits, two_digits};
use chrono::Datelike;
use chrono::TimeZone;
use chrono::Timelike;

verus! {

/// The earliest epoch second the library converts to a calendar moment.
/// Inside this range chrono maps every second to a single valid moment in
/// every time zone; beyond it the conversion can fail.
pub const TS_MIN: i64 = -8_000_000_000_000;

/// The latest epoch second the library converts to a calendar moment.
pub const TS_MAX: i64 = 8_000_000_000_000;

/// A calendar date in the local time zone.
#[derive(PartialEq, Eq, Structural, Clone, Copy, Debug)]
pub struct CivilDay {
    pub year: i32,
    /// 1 to 12.
    pub month: u8,
    /// 1 to 31.
    pub day: u8,
}

/// A calendar moment in the local time zone.
#[derive(PartialEq, Eq, Structural, Clone, Copy, Debug)]
pub struct Civil {
    pub date: CivilDay,
    pub hour: u8,
    pub minute: u8,
    pub second: u8,
}

/// The field ranges every calendar date satisfies.
pub open spec fn day_wf(d: CivilDay) -> bool {
    1 <= d.month <= 12 && 1 <= d.day <= 31
}

/// The field ranges every calendar moment satisfies.
pub open spec fn civil_wf(c: Civil) -> bool {
    day_wf(c.date) && c.hour < 24 && c.minute < 60 && c.second < 60
}

/// Relies on chrono: `Utc.timestamp_opt(t, 0).single()` is `Some` for every
/// `t` in `[TS_MIN, TS_MAX]`, converting to `DateTime<Local>` stays in
/// range there, and the `Datelike` / `Timelike` accessors return the local
/// calendar fields, with month in 1..=12, day in 1..=31, hour below 24,
/// minute and second below 60.
#[verifier::external_body]
pub(crate) fn local_civil_of(t: i64) -> (c: Civil)
    requires
        TS_MIN <= t <= TS_MAX,
    ensures
        civil_wf(c),
{
    let utc = chrono::Utc.timestamp_opt(t, 0).single().expect("timestamp in range");
    let dt: chrono::DateTime<chrono::Local> = chrono::DateTime::from(utc);
    Civil {
        date: CivilDay { year: dt.year(), month: dt.month() as u8, day: dt.day() as u8 },
        hour: dt.hour() as u8,
        minute: dt.minute() as u8,
        second: dt.second() as u8,
    }
}

/// Relies on chrono: `Utc::now().timestamp()` is the current moment as Unix
/// epoch seconds. Nothing is promised of the clock's reading.
#[verifier::external_body]
pub(crate) fn now_epoch_seconds() -> i64 {
    chrono::Utc::now().timestamp()
}

/// A date squeezed into one integer that orders dates chronologically.
pub open spec fn date_key_spec(d: CivilDay) -> int {
    d.year * 10000 + d.month * 100 + d.day
}

/// Computes the order key of a date.
pub fn date_key(d: &CivilDay) -> (k: i64)
    ensures
        k as int == date_key_spec(*d),
{
    (d.year as i64) * 10000 + (d.month as i64) * 100 + (d.day as i64)
}

/// Two well-formed dates with one order key are the same date.
pub proof fn lemma_date_key_injective(a: CivilDay, b: CivilDay)
    requires
        day_wf(a),
        day_wf(b),
        date_key_spec(a) == date_key_spec(b),
    ensures
        a == b,
{
    assert(a.year == b.year);
    assert(a.month == b.month);
}

/// The year as the original prints it: zero-padded to four digits, a bare
/// `-` before an early year, an explicit `+` past the year 9999.
pub open spec fn year_seq(y: int) -> Seq<char> {
    if 0 <= y <= 9999 {
        four_digits(y)
    } else if y > 9999 {
        seq!['+'] + dec_u(y as nat)
    } else {
        seq!['-'] + (if -y <= 9999 {
            four_digits(-y)
        } else {
            dec_u((-y) as nat)
        })
    }
}

/// A date line fragment: `YYYY-MM-DD`.
pub open spec fn date_seq(d: CivilDay) -> Seq<char> {
    year_seq(d.year as int) + seq!['-'] + two_digits(d.month as int) + seq!['-'] + two_digits(
        d.day as int,
    )
}

/// A moment fragment: `YYYY-MM-DD HH:MM:SS`.
pub open spec fn datetime_seq(c: Civil) -> Seq<char> {
    date_seq(c.date) + seq![' '] + two_digits(c.hour as int) + seq![':'] + two_digits(
        c.minute as int,
    ) + seq![':'] + two_digits(c.second as int)
}

/// Appends `n` zero-padded to two digits.
fn push_two(s: &mut String, n: u8)
    requires
        n < 100,
    ensures
        final(s)@ == old(s)@ + two_digits(n as int),
{
    s.append(crate::numerals::digit_str(n / 10));
    s.append(crate::numerals::digit_str(n % 10));
    proof {
        assert(n / 10 % 10 == n / 10);
        assert(s@ =~= old(s)@ + two_digits(n as int));
    }
}

/// Appends the year as the original prints it.
fn push_year(s: &mut String, y: i32)
    ensures
        final(s)@ == old(s)@ + year_seq(y as int),
{
    if 0 <= y && y <= 9999 {
        let u = y as u32;
        s.append(crate::numerals::digit_str((u / 1000) as u8));
        s.append(crate::numerals::digit_str((u / 100 % 10) as u8));
        s.append(crate::numerals::digit_str((u / 10 % 10) as u8));
        s.append(crate::numerals::digit_str((u % 10) as u8));
        proof {
            assert(u / 1000 % 10 == u / 1000);
            assert(s@ =~= old(s)@ + four_digits(y as int));
        }
    } else if y > 9999 {
        proof {
            reveal_strlit("+");
        }
        s.append("+");
        let ds = crate::numerals::u128_to_dec(y as u128);
        s.append(ds.as_str());
        proof {
            assert(s@ =~= old(s)@ + year_seq(y as int));
        }
    } else {
        proof {
            reveal_strlit("-");
        }
        s.append("-");
        let mag: i64 = -(y as i64);
        if mag <= 9999 {
            let u = mag as u32;
            s.append(crate::numerals::digit_str((u / 1000) as u8));
            s.append(crate::numerals::digit_str((u / 100 % 10) as u8));
            s.append(crate::numerals::digit_str((u / 10 % 10) as u8));
            s.append(crate::numerals::digit_str((u % 10) as u8));
            proof {
                assert(u / 1000 % 10 == u / 1000);
                assert(s@ =~= old(s)@ + year_seq(y as int));
            }
        } else {
            let ds = crate::numerals::u128_to_dec(mag as u128);
            s.append(ds.as_str());
            proof {
                assert(s@ =~= old(s)@ + year_seq(y as int));
            }
        }
    }
}

/// Renders a date as `YYYY-MM-DD`.
pub fn render_day(d: &CivilDay) -> (r: String)
    requires
        day_wf(*d),
    ensures
        r@ == date_seq(*d),
{
    let mut s = String::new();
    push_year(&mut s, d.year);
    proof {
        reveal_strlit("-");
    }
    s.append("-");
    push_two(&mut s, d.month);
    s.append("-");
    push_two(&mut s, d.day);
    proof {
        assert(s@ =~= date_seq(*d));
    }
    s
}

/// Renders a moment as `YYYY-MM-DD HH:MM:SS`.
pub fn render_civil(c: &Civil) -> (r: String)
    requires
        civil_wf(*c),
    ensures
        r@ == datetime_seq(*c),
{
    let mut s = render_day(&c.date);
    proof {
        reveal_strlit(" ");
        reveal_strlit(":");
    }
    s.append(" ");
    push_two(&mut s, c.hour);
    s.append(":");
    push_two(&mut s, c.minute);
    s.append(":");
    push_two(&mut s, c.second);
    proof {
        assert(s@ =~= datetime_seq(*c));
    }
    s
}

} // verus!
