//! Calendar dates and timestamps: their arithmetic and text forms, stated
//! over plain integers, and the calls into `chrono` that the service makes.
use chrono::Datelike;
use crate::text::{lemma_text_less_concat, lemma_text_less_irreflexive, text_less};
use vstd::prelude::*;

verus! {

/// The earliest year that `chrono::NaiveDate` represents.
pub open spec fn min_year() -> int {
    -262143
}

/// The latest year that `chrono::NaiveDate` represents.
pub const LAST_YEAR: i32 = 262142;

/// The latest year that `chrono::NaiveDate` represents.
pub open spec fn max_year() -> int {
    LAST_YEAR as int
}

/// Proleptic Gregorian leap years.
pub open spec fn is_leap_year(y: int) -> bool {
    y % 4 == 0 && (y % 100 != 0 || y % 400 == 0)
}

pub open spec fn days_in_month(y: int, m: int) -> int {
    if m == 2 {
        if is_leap_year(y) { 29 } else { 28 }
    } else if m == 4 || m == 6 || m == 9 || m == 11 {
        30
    } else {
        31
    }
}

/// A day that exists in the calendar and lies in the range that `chrono` represents.
pub open spec fn valid_ymd(y: int, m: int, d: int) -> bool {
    &&& min_year() <= y <= max_year()
    &&& 1 <= m <= 12
    &&& 1 <= d <= days_in_month(y, m)
}

/// A calendar day, year first.
#[derive(Clone, Copy, Debug, PartialEq, Eq, Structural)]
pub struct CalendarDate {
    pub year: i32,
    pub month: u32,
    pub day: u32,
}

impl CalendarDate {
    pub open spec fn valid(self) -> bool {
        valid_ymd(self.year as int, self.month as int, self.day as int)
    }

    pub open spec fn ymd(self) -> (int, int, int) {
        (self.year as int, self.month as int, self.day as int)
    }
}

/// Wraps `chrono::NaiveDate::from_ymd_opt`, which, as its documentation says,
/// gives a date exactly when the month and day exist in that year and the year
/// lies in the range the type represents.
#[verifier::external_body]
pub(crate) fn ymd_date(year: i32, month: u32, day: u32) -> (r: Option<CalendarDate>)
    ensures
        r is Some <==> valid_ymd(year as int, month as int, day as int),
        r matches Some(c) ==> c == (CalendarDate { year, month, day }),
{
    match chrono::NaiveDate::from_ymd_opt(year, month, day) {
        Some(n) => Some(CalendarDate { year: n.year(), month: n.month(), day: n.day() }),
        None => None,
    }
}


/// The day after `(y, m, d)` in the calendar.
pub open spec fn next_ymd(y: int, m: int, d: int) -> (int, int, int) {
    if d < days_in_month(y, m) {
        (y, m, d + 1)
    } else if m < 12 {
        (y, m + 1, 1)
    } else {
        (y + 1, 1, 1)
    }
}

/// The last day that `chrono::NaiveDate` represents.
pub open spec fn is_last_representable(y: int, m: int, d: int) -> bool {
    y == max_year() && m == 12 && d == 31
}

/// Wraps `chrono::NaiveDate::succ_opt` (on the `NaiveDate` built from the
/// fields by `from_ymd_opt`): the next calendar day, or nothing on the last
/// day the type represents, as its documentation says.
#[verifier::external_body]
pub(crate) fn next_date(date: CalendarDate) -> (r: Option<CalendarDate>)
    requires
        date.valid(),
    ensures
        r is None <==> is_last_representable(date.year as int, date.month as int, date.day as int),
        r matches Some(n) ==> n.ymd() == next_ymd(date.year as int, date.month as int, date.day as int),
{
    match chrono::NaiveDate::from_ymd_opt(date.year, date.month, date.day) {
        Some(n) => match n.succ_opt() {
            Some(s) => Some(CalendarDate { year: s.year(), month: s.month(), day: s.day() }),
            None => None,
        },
        None => None,
    }
}

/// The ASCII digit for `n` in `0..10`.
pub open spec fn digit_char(n: int) -> char {
    (48 + n) as char
}

/// The decimal digits of `n`, most significant first, without leading zeros.
pub open spec fn decimal(n: nat) -> Seq<char>
    decreases n,
{
    if n < 10 {
        seq![digit_char(n as int)]
    } else {
        decimal(n / 10).push(digit_char((n % 10) as int))
    }
}

/// The decimal digits of `n`, with zeros in front up to `width` characters.
pub open spec fn zero_padded(n: nat, width: nat) -> Seq<char> {
    let digits = decimal(n);
    let fill: nat = if digits.len() < width { (width - digits.len()) as nat } else { 0 };
    Seq::new(fill, |i: int| '0') + digits
}

/// The year as `%Y` writes it: four digits within `0..=9999`, otherwise a sign
/// and at least four digits.
pub open spec fn year_text(y: int) -> Seq<char> {
    if 0 <= y <= 9999 {
        zero_padded(y as nat, 4)
    } else if y < 0 {
        seq!['-'] + zero_padded((-y) as nat, 4)
    } else {
        seq!['+'] + zero_padded(y as nat, 4)
    }
}

/// A date in the form `YYYY-MM-DD`.
pub open spec fn iso_date_text(y: int, m: int, d: int) -> Seq<char> {
    year_text(y) + seq!['-'] + zero_padded(m as nat, 2) + seq!['-'] + zero_padded(d as nat, 2)
}

/// Four decimal digits of `n` in `0..10000`.
pub open spec fn digits4(n: int) -> Seq<char> {
    seq![digit_char(n / 1000), digit_char((n / 100) % 10), digit_char((n / 10) % 10), digit_char(n % 10)]
}

/// Two decimal digits of `n` in `0..100`.
pub open spec fn digits2(n: int) -> Seq<char> {
    seq![digit_char(n / 10), digit_char(n % 10)]
}

proof fn lemma_zero_padded_2(n: nat)
    requires
        n < 100,
    ensures
        zero_padded(n, 2) =~= digits2(n as int),
{
    reveal_with_fuel(decimal, 3);
    if n < 10 {
        assert(decimal(n) =~= seq![digit_char(n as int)]);
    } else {
        assert(decimal(n / 10) =~= seq![digit_char((n / 10) as int)]);
    }
}

proof fn lemma_zero_padded_4(n: nat)
    requires
        n < 10000,
    ensures
        zero_padded(n, 4) =~= digits4(n as int),
{
    reveal_with_fuel(decimal, 5);
    if n < 10 {
        assert(decimal(n) =~= seq![digit_char(n as int)]);
    } else if n < 100 {
        assert(decimal(n / 10) =~= seq![digit_char((n / 10) as int)]);
        assert(decimal(n) =~= seq![digit_char((n / 10) as int), digit_char((n % 10) as int)]);
    } else if n < 1000 {
        assert(decimal(n / 100) =~= seq![digit_char((n / 100) as int)]);
        assert(decimal(n / 10) =~= seq![digit_char((n / 100) as int), digit_char(((n / 10) % 10) as int)]);
        assert(decimal(n) =~= seq![
            digit_char((n / 100) as int),
            digit_char(((n / 10) % 10) as int),
            digit_char((n % 10) as int),
        ]);
    } else {
        assert(decimal(n / 1000) =~= seq![digit_char((n / 1000) as int)]);
        assert(decimal(n / 100) =~= seq![
            digit_char((n / 1000) as int),
            digit_char(((n / 100) % 10) as int),
        ]);
        assert(decimal(n / 10) =~= seq![
            digit_char((n / 1000) as int),
            digit_char(((n / 100) % 10) as int),
            digit_char(((n / 10) % 10) as int),
        ]);
    }
}

proof fn lemma_digit_char(x: int)
    requires
        0 <= x <= 9,
    ensures
        digit_char(x) as int == 48 + x,
{
}

proof fn lemma_single_char_less(c1: char, c2: char)
    ensures
        text_less(seq![c1], seq![c2]) == ((c1 as int) < (c2 as int)),
{
    reveal_with_fuel(text_less, 2);
    assert(seq![c1].drop_first() =~= Seq::<char>::empty());
    assert(seq![c2].drop_first() =~= Seq::<char>::empty());
}

proof fn lemma_decompose4(a: int)
    requires
        0 <= a < 10000,
    ensures
        0 <= a / 1000 <= 9,
        0 <= (a / 100) % 10 <= 9,
        0 <= (a / 10) % 10 <= 9,
        0 <= a % 10 <= 9,
        a == 1000 * (a / 1000) + 100 * ((a / 100) % 10) + 10 * ((a / 10) % 10) + a % 10,
{
    assert(a == 1000 * (a / 1000) + 100 * ((a / 100) % 10) + 10 * ((a / 10) % 10) + a % 10)
        by (nonlinear_arith)
        requires
            0 <= a < 10000,
    ;
    assert(0 <= a / 1000 <= 9) by (nonlinear_arith)
        requires
            0 <= a < 10000,
    ;
}

proof fn lemma_four_chars_order(x: Seq<int>, y: Seq<int>)
    requires
        x.len() == 4,
        y.len() == 4,
        forall|i: int| 0 <= i < 4 ==> 0 <= #[trigger] x[i] <= 9,
        forall|i: int| 0 <= i < 4 ==> 0 <= #[trigger] y[i] <= 9,
    ensures
        text_less(
            seq![digit_char(x[0]), digit_char(x[1]), digit_char(x[2]), digit_char(x[3])],
            seq![digit_char(y[0]), digit_char(y[1]), digit_char(y[2]), digit_char(y[3])],
        ) <==> 1000 * x[0] + 100 * x[1] + 10 * x[2] + x[3] < 1000 * y[0] + 100 * y[1] + 10 * y[2]
            + y[3],
        seq![digit_char(x[0]), digit_char(x[1]), digit_char(x[2]), digit_char(x[3])] == seq![
            digit_char(y[0]),
            digit_char(y[1]),
            digit_char(y[2]),
            digit_char(y[3]),
        ] <==> 1000 * x[0] + 100 * x[1] + 10 * x[2] + x[3] == 1000 * y[0] + 100 * y[1] + 10 * y[2]
            + y[3],
{
    let da = seq![digit_char(x[0]), digit_char(x[1]), digit_char(x[2]), digit_char(x[3])];
    let db = seq![digit_char(y[0]), digit_char(y[1]), digit_char(y[2]), digit_char(y[3])];
    lemma_digit_char(x[0]);
    lemma_digit_char(x[1]);
    lemma_digit_char(x[2]);
    lemma_digit_char(x[3]);
    lemma_digit_char(y[0]);
    lemma_digit_char(y[1]);
    lemma_digit_char(y[2]);
    lemma_digit_char(y[3]);
    assert(da =~= seq![da[0]] + (seq![da[1]] + (seq![da[2]] + seq![da[3]])));
    assert(db =~= seq![db[0]] + (seq![db[1]] + (seq![db[2]] + seq![db[3]])));
    lemma_text_less_concat(
        seq![da[0]],
        seq![da[1]] + (seq![da[2]] + seq![da[3]]),
        seq![db[0]],
        seq![db[1]] + (seq![db[2]] + seq![db[3]]),
    );
    lemma_text_less_concat(
        seq![da[1]],
        seq![da[2]] + seq![da[3]],
        seq![db[1]],
        seq![db[2]] + seq![db[3]],
    );
    lemma_text_less_concat(seq![da[2]], seq![da[3]], seq![db[2]], seq![db[3]]);
    lemma_single_char_less(da[0], db[0]);
    lemma_single_char_less(da[1], db[1]);
    lemma_single_char_less(da[2], db[2]);
    lemma_single_char_less(da[3], db[3]);
    if da == db {
        assert(da[0] == db[0] && da[1] == db[1] && da[2] == db[2] && da[3] == db[3]);
    }
    if x[0] == y[0] && x[1] == y[1] && x[2] == y[2] && x[3] == y[3] {
        assert(da =~= db);
    }
}

/// Four-digit texts compare as their numbers do.
pub proof fn lemma_digits4_order(a: int, b: int)
    requires
        0 <= a < 10000,
        0 <= b < 10000,
    ensures
        text_less(digits4(a), digits4(b)) <==> a < b,
        digits4(a) == digits4(b) <==> a == b,
{
    lemma_decompose4(a);
    lemma_decompose4(b);
    let x = seq![a / 1000, (a / 100) % 10, (a / 10) % 10, a % 10];
    let y = seq![b / 1000, (b / 100) % 10, (b / 10) % 10, b % 10];
    lemma_four_chars_order(x, y);
    assert(digits4(a) =~= seq![digit_char(x[0]), digit_char(x[1]), digit_char(x[2]), digit_char(x[3])]);
    assert(digits4(b) =~= seq![digit_char(y[0]), digit_char(y[1]), digit_char(y[2]), digit_char(y[3])]);
}

/// Two-digit texts compare as their numbers do.
pub proof fn lemma_digits2_order(a: int, b: int)
    requires
        0 <= a < 100,
        0 <= b < 100,
    ensures
        text_less(digits2(a), digits2(b)) <==> a < b,
        digits2(a) == digits2(b) <==> a == b,
{
    let da = digits2(a);
    let db = digits2(b);
    lemma_digit_char(a / 10);
    lemma_digit_char(a % 10);
    lemma_digit_char(b / 10);
    lemma_digit_char(b % 10);
    assert(da =~= seq![da[0]] + seq![da[1]]);
    assert(db =~= seq![db[0]] + seq![db[1]]);
    lemma_text_less_concat(seq![da[0]], seq![da[1]], seq![db[0]], seq![db[1]]);
    lemma_single_char_less(da[0], db[0]);
    lemma_single_char_less(da[1], db[1]);
    if da == db {
        assert(da[0] == db[0] && da[1] == db[1]);
    }
}

/// `(y1, m1, d1)` is an earlier day than `(y2, m2, d2)`.
pub open spec fn ymd_before(y1: int, m1: int, d1: int, y2: int, m2: int, d2: int) -> bool {
    y1 < y2 || (y1 == y2 && (m1 < m2 || (m1 == m2 && d1 < d2)))
}

/// Days of years `0..=9999`: the ones whose `YYYY-MM-DD` text has four year digits.
pub open spec fn four_digit_year_day(y: int, m: int, d: int) -> bool {
    0 <= y <= 9999 && 0 <= m < 100 && 0 <= d < 100
}

proof fn lemma_iso_shape(y: int, m: int, d: int)
    requires
        four_digit_year_day(y, m, d),
    ensures
        iso_date_text(y, m, d) =~= digits4(y) + (seq!['-'] + (digits2(m) + (seq!['-'] + digits2(d)))),
{
    lemma_zero_padded_4(y as nat);
    lemma_zero_padded_2(m as nat);
    lemma_zero_padded_2(d as nat);
}

/// For years `0..=9999`, `YYYY-MM-DD` texts compare as the days do, and
/// equal texts are the same day.
pub proof fn lemma_iso_order(y1: int, m1: int, d1: int, y2: int, m2: int, d2: int)
    requires
        four_digit_year_day(y1, m1, d1),
        four_digit_year_day(y2, m2, d2),
    ensures
        text_less(iso_date_text(y1, m1, d1), iso_date_text(y2, m2, d2)) <==> ymd_before(
            y1,
            m1,
            d1,
            y2,
            m2,
            d2,
        ),
        iso_date_text(y1, m1, d1) == iso_date_text(y2, m2, d2) <==> (y1 == y2 && m1 == m2 && d1
            == d2),
        iso_date_text(y1, m1, d1).len() == 10,
{
    lemma_iso_shape(y1, m1, d1);
    lemma_iso_shape(y2, m2, d2);
    lemma_digits4_order(y1, y2);
    lemma_digits2_order(m1, m2);
    lemma_digits2_order(d1, d2);
    let r1 = seq!['-'] + digits2(d1);
    let r2 = seq!['-'] + digits2(d2);
    let q1 = digits2(m1) + r1;
    let q2 = digits2(m2) + r2;
    let p1 = seq!['-'] + q1;
    let p2 = seq!['-'] + q2;
    lemma_text_less_concat(digits4(y1), p1, digits4(y2), p2);
    lemma_text_less_concat(seq!['-'], q1, seq!['-'], q2);
    lemma_text_less_concat(digits2(m1), r1, digits2(m2), r2);
    lemma_text_less_concat(seq!['-'], digits2(d1), seq!['-'], digits2(d2));
    if iso_date_text(y1, m1, d1) == iso_date_text(y2, m2, d2) {
        assert(digits4(y1) =~= iso_date_text(y1, m1, d1).subrange(0, 4));
        assert(digits4(y2) =~= iso_date_text(y2, m2, d2).subrange(0, 4));
        assert(digits2(m1) =~= iso_date_text(y1, m1, d1).subrange(5, 7));
        assert(digits2(m2) =~= iso_date_text(y2, m2, d2).subrange(5, 7));
        assert(digits2(d1) =~= iso_date_text(y1, m1, d1).subrange(8, 10));
        assert(digits2(d2) =~= iso_date_text(y2, m2, d2).subrange(8, 10));
    }
    lemma_text_less_irreflexive(iso_date_text(y1, m1, d1));
}

/// A `YYYY-MM-DD` text of a four-digit year holds no space.
pub proof fn lemma_iso_space_free(y: int, m: int, d: int)
    requires
        four_digit_year_day(y, m, d),
    ensures
        forall|i: int|
            0 <= i < iso_date_text(y, m, d).len() ==> #[trigger] iso_date_text(y, m, d)[i] != ' ',
{
    lemma_iso_shape(y, m, d);
    lemma_decompose4(y);
    lemma_digit_char(y / 1000);
    lemma_digit_char((y / 100) % 10);
    lemma_digit_char((y / 10) % 10);
    lemma_digit_char(y % 10);
    lemma_digit_char(m / 10);
    lemma_digit_char(m % 10);
    lemma_digit_char(d / 10);
    lemma_digit_char(d % 10);
    let t = iso_date_text(y, m, d);
    assert forall|i: int| 0 <= i < t.len() implies #[trigger] t[i] != ' ' by {
        assert(t[0] == digit_char(y / 1000));
        assert(t[1] == digit_char((y / 100) % 10));
        assert(t[2] == digit_char((y / 10) % 10));
        assert(t[3] == digit_char(y % 10));
        assert(t[5] == digit_char(m / 10));
        assert(t[6] == digit_char(m % 10));
        assert(t[8] == digit_char(d / 10));
        assert(t[9] == digit_char(d % 10));
    }
}

/// Wraps `chrono::NaiveDate::format` with the pattern `%Y-%m-%d` (on the
/// `NaiveDate` built from the fields by `from_ymd_opt`). As chrono's
/// formatting source shows, the year is written with four zero-padded digits
/// within `0..=9999` and with a sign otherwise, month and day with two digits.
#[verifier::external_body]
pub(crate) fn format_iso(date: CalendarDate) -> (r: String)
    requires
        date.valid(),
    ensures
        r@ == iso_date_text(date.year as int, date.month as int, date.day as int),
{
    chrono::NaiveDate::from_ymd_opt(date.year, date.month, date.day).unwrap().format("%Y-%m-%d").to_string()
}

/// What `chrono::NaiveDate::parse_from_str(s, "%Y-%m-%d")` yields for the text
/// `s`: the year, month and day it reads, or nothing when it refuses the text.
pub uninterp spec fn chrono_date_parse(s: Seq<char>) -> Option<(int, int, int)>;

/// Wraps `chrono::NaiveDate::parse_from_str` with the pattern `%Y-%m-%d`. Its
/// result is named by `chrono_date_parse`; what is stated besides is that a
/// `NaiveDate` always holds a valid, representable day, and that a text of
/// the shape `dddd-dd-dd` is read only as the day it spells: `%Y` takes four
/// unsigned digits there, `%m` and `%d` two each, month and day are checked
/// against their ranges and the day against the calendar. Which other texts
/// chrono accepts (it is lenient about padding and signs) is left unsaid.
#[verifier::external_body]
pub(crate) fn parse_iso_date(s: &str) -> (r: Option<CalendarDate>)
    ensures
        r is Some <==> chrono_date_parse(s@) is Some,
        r matches Some(c) ==> chrono_date_parse(s@) == Some(c.ymd()) && c.valid(),
        forall|y: int, m: int, d: int|
            #![trigger iso_date_text(y, m, d)]
            four_digit_year_day(y, m, d) && s@ == iso_date_text(y, m, d) ==> (r is Some
                <==> valid_ymd(y, m, d)) && (r matches Some(c) ==> c.ymd() == (y, m, d)),
{
    match chrono::NaiveDate::parse_from_str(s, "%Y-%m-%d") {
        Ok(n) => Some(CalendarDate { year: n.year(), month: n.month(), day: n.day() }),
        Err(_) => None,
    }
}

/// Whether `chrono::NaiveDateTime::parse_from_str(s, "%Y-%m-%d %H:%M:%S")`
/// accepts the text `s`.
pub uninterp spec fn chrono_timestamp_accepted(s: Seq<char>) -> bool;

/// A timestamp `YYYY-MM-DD HH:MM:SS`.
pub open spec fn timestamp_text(y: int, m: int, d: int, h: int, mi: int, sec: int) -> Seq<
    char,
> {
    iso_date_text(y, m, d) + seq![' '] + zero_padded(h as nat, 2) + seq![':'] + zero_padded(
        mi as nat,
        2,
    ) + seq![':'] + zero_padded(sec as nat, 2)
}

/// `s` is the `YYYY-MM-DD HH:MM:SS` text of a valid day of a four-digit year
/// and a valid time of day.
pub open spec fn is_canonical_timestamp(s: Seq<char>) -> bool {
    exists|y: int, m: int, d: int, h: int, mi: int, sec: int|
        #![trigger timestamp_text(y, m, d, h, mi, sec)]
        valid_ymd(y, m, d) && 0 <= y <= 9999 && 0 <= h < 24 && 0 <= mi < 60 && 0 <= sec < 60 && s
            == timestamp_text(y, m, d, h, mi, sec)
}

/// Wraps `chrono::NaiveDateTime::parse_from_str` with the pattern
/// `%Y-%m-%d %H:%M:%S`, keeping only whether it succeeded. Which texts chrono
/// accepts is named by `chrono_timestamp_accepted`; what is stated besides is
/// that it accepts the zero-padded text of a valid day of a four-digit year
/// and a valid time (its fields are read digit by digit and checked against
/// their ranges). Which other texts it accepts or refuses is left unsaid.
#[verifier::external_body]
pub(crate) fn timestamp_parses(s: &str) -> (r: bool)
    ensures
        r == chrono_timestamp_accepted(s@),
        is_canonical_timestamp(s@) ==> r,
{
    chrono::NaiveDateTime::parse_from_str(s, "%Y-%m-%d %H:%M:%S").is_ok()
}

} // verus!
