//! The decisions of the tracker's HTTP handlers: which requests are accepted
//! and what is stored for them, the windows of time a day or a month covers,
//! what a day or a deletion is answered, and how the front end is served.
use crate::calendar::{half_scoops_total, is_calendar_of, lemma_calendar_determined};
use crate::dates::{
    chrono_date_parse, chrono_timestamp_accepted, format_iso, is_last_representable, iso_date_text,
    four_digit_year_day, lemma_iso_order, max_year, min_year, LAST_YEAR, lemma_iso_space_free, next_date, next_ymd,
    parse_iso_date, timestamp_parses, valid_ymd, ymd_before, ymd_date, is_canonical_timestamp,
};
use crate::feeding;
use crate::text::{
    begins_with, date_key, is_white_space, lemma_date_key_concat, lemma_not_less_pointwise,
    lemma_text_less_concat, lemma_trimmed_edges, lemma_trimmed_idempotent, lemma_trimmed_keeps_clean_text, strip_leading_slashes,
    lemma_strip_leading_slashes_removes_only_slashes,
    text_less, trim, trim_leading_slashes, trimmed,
};
use crate::treat;
use vstd::prelude::*;

pub use crate::calendar::{daily_totals, CalendarDay};

verus! {

/// Why a request is refused; the service answers it with an HTTP status
/// (400, 404 and 500 in that order).
#[derive(Clone, Copy, Debug, PartialEq, Eq, Structural)]
pub enum ApiError {
    BadRequest,
    NotFound,
    Internal,
}

/// A request to record a feeding of one or two half scoops.
#[derive(Debug)]
pub struct AddFeedingRequest {
    pub amount_half_scoops: i32,
    pub fed_at: String,
    pub edited: bool,
}

/// A request to record a treat.
#[derive(Debug)]
pub struct AddTreatRequest {
    pub name: String,
    pub given_at: String,
    pub edited: bool,
}

/// A stored feeding as the API reports it; the amount in scoops is half of
/// `amount_half_scoops`.
#[derive(Debug)]
pub struct FeedingResponse {
    pub id: i32,
    pub amount_half_scoops: i32,
    pub fed_at: String,
    pub edited: bool,
}

/// A stored treat as the API reports it.
#[derive(Debug)]
pub struct TreatResponse {
    pub id: i32,
    pub name: String,
    pub given_at: String,
    pub edited: bool,
}

/// One day's feedings and treats, with the half scoops fed that day.
#[derive(Debug)]
pub struct DayResponse {
    pub date: String,
    pub total_half_scoops: i32,
    pub feedings: Vec<FeedingResponse>,
    pub treats: Vec<TreatResponse>,
}

/// Checks that `ts` is a `YYYY-MM-DD HH:MM:SS` timestamp, as chrono reads it.
pub fn validate_timestamp(ts: &str) -> (r: Result<(), ApiError>)
    ensures
        r is Ok <==> chrono_timestamp_accepted(ts@),
        is_canonical_timestamp(ts@) ==> r is Ok,
        r matches Err(e) ==> e == ApiError::BadRequest,
{
    if timestamp_parses(ts) {
        Ok(())
    } else {
        Err(ApiError::BadRequest)
    }
}

/// The checks of a new feeding: one or two half scoops, and a valid
/// timestamp. What passes is stored as it came.
pub fn check_new_feeding(req: AddFeedingRequest) -> (r: Result<feeding::NewFeeding, ApiError>)
    ensures
        r is Ok <==> (req.amount_half_scoops == 1 || req.amount_half_scoops == 2)
            && chrono_timestamp_accepted(req.fed_at@),
        r matches Ok(f) ==> f.amount_half_scoops == req.amount_half_scoops && f.fed_at@
            == req.fed_at@ && f.edited == req.edited,
        r matches Ok(f) ==> f.admissible(),
        (req.amount_half_scoops == 1 || req.amount_half_scoops == 2) && is_canonical_timestamp(
            req.fed_at@,
        ) ==> r is Ok,
        r matches Err(e) ==> e == ApiError::BadRequest,
{
    if req.amount_half_scoops != 1 && req.amount_half_scoops != 2 {
        return Err(ApiError::BadRequest);
    }
    validate_timestamp(req.fed_at.as_str())?;
    Ok(
        feeding::NewFeeding {
            amount_half_scoops: req.amount_half_scoops,
            fed_at: req.fed_at,
            edited: req.edited,
        },
    )
}

/// The checks of a new treat: its name, trimmed of surrounding white space,
/// must not be empty, and its timestamp must be valid. The trimmed name is
/// what is stored.
pub fn check_new_treat(req: AddTreatRequest) -> (r: Result<treat::NewTreat, ApiError>)
    ensures
        r is Ok <==> trimmed(req.name@).len() > 0 && chrono_timestamp_accepted(req.given_at@),
        r matches Ok(t) ==> t.name@ == trimmed(req.name@) && t.given_at@ == req.given_at@
            && t.edited == req.edited,
        r matches Ok(t) ==> t.name@.len() > 0 && !is_white_space(t.name@[0]) && !is_white_space(
            t.name@.last(),
        ),
        r matches Ok(t) ==> t.admissible(),
        trimmed(req.name@).len() > 0 && is_canonical_timestamp(req.given_at@) ==> r is Ok,
        req.name@.len() > 0 && !is_white_space(req.name@[0]) && !is_white_space(req.name@.last())
            ==> (r matches Ok(t) ==> t.name@ == req.name@),
        r matches Err(e) ==> e == ApiError::BadRequest,
{
    let name = trim(req.name.as_str());
    proof {
        if req.name@.len() > 0 && !is_white_space(req.name@[0]) && !is_white_space(
            req.name@.last(),
        ) {
            lemma_trimmed_keeps_clean_text(req.name@);
        }
        lemma_trimmed_edges(req.name@);
        lemma_trimmed_idempotent(req.name@);
    }
    if name.as_str().unicode_len() == 0 {
        return Err(ApiError::BadRequest);
    }
    validate_timestamp(req.given_at.as_str())?;
    Ok(treat::NewTreat { name, given_at: req.given_at, edited: req.edited })
}

/// A response describes the stored feeding `m`.
pub open spec fn reports_feeding(r: FeedingResponse, m: feeding::Model) -> bool {
    &&& r.id == m.id
    &&& r.amount_half_scoops == m.amount_half_scoops
    &&& r.fed_at@ == m.fed_at@
    &&& r.edited == m.edited
}

/// A response describes the stored treat `m`.
pub open spec fn reports_treat(r: TreatResponse, m: treat::Model) -> bool {
    &&& r.id == m.id
    &&& r.name@ == m.name@
    &&& r.given_at@ == m.given_at@
    &&& r.edited == m.edited
}

/// A response that describes a stored feeding reports every one of its
/// fields as stored, the `edited` mark of entries made after the fact
/// included.
pub proof fn lemma_feeding_report_keeps_fields(r: FeedingResponse, m: feeding::Model)
    requires
        reports_feeding(r, m),
    ensures
        r.id == m.id,
        r.amount_half_scoops == m.amount_half_scoops,
        r.fed_at@ == m.fed_at@,
        r.edited == m.edited,
{
}

/// A response that describes a stored treat reports every one of its fields
/// as stored, the `edited` mark included.
pub proof fn lemma_treat_report_keeps_fields(r: TreatResponse, m: treat::Model)
    requires
        reports_treat(r, m),
    ensures
        r.id == m.id,
        r.name@ == m.name@,
        r.given_at@ == m.given_at@,
        r.edited == m.edited,
{
}

/// The API's view of a stored feeding.
pub fn to_response(m: &feeding::Model) -> (r: FeedingResponse)
    ensures
        reports_feeding(r, *m),
        r.id == m.id,
        r.amount_half_scoops == m.amount_half_scoops,
        r.fed_at@ == m.fed_at@,
        r.edited == m.edited,
{
    FeedingResponse {
        id: m.id,
        amount_half_scoops: m.amount_half_scoops,
        fed_at: m.fed_at.clone(),
        edited: m.edited,
    }
}

/// The API's view of a stored treat.
pub fn to_treat_response(m: &treat::Model) -> (r: TreatResponse)
    ensures
        reports_treat(r, *m),
        r.id == m.id,
        r.name@ == m.name@,
        r.given_at@ == m.given_at@,
        r.edited == m.edited,
{
    TreatResponse {
        id: m.id,
        name: m.name.clone(),
        given_at: m.given_at.clone(),
        edited: m.edited,
    }
}

/// Adding the feedings' half scoops up in order stays within `i32`.
pub open spec fn running_totals_fit(fs: Seq<feeding::Model>) -> bool {
    forall|k: int|
        0 <= k <= fs.len() ==> i32::MIN <= #[trigger] half_scoops_total(fs.take(k)) <= i32::MAX
}

/// The answer for one day: its date, the half scoops of its feedings, and
/// each feeding and treat in the order given.
pub fn build_day_response(
    date: &str,
    models: &Vec<feeding::Model>,
    treat_models: &Vec<treat::Model>,
) -> (r: DayResponse)
    requires
        running_totals_fit(models@),
    ensures
        r.date@ == date@,
        r.total_half_scoops == half_scoops_total(models@),
        r.feedings@.len() == models@.len(),
        forall|i: int|
            0 <= i < models@.len() ==> reports_feeding(#[trigger] r.feedings@[i], models@[i]),
        r.treats@.len() == treat_models@.len(),
        forall|i: int|
            0 <= i < treat_models@.len() ==> reports_treat(
                #[trigger] r.treats@[i],
                treat_models@[i],
            ),
        forall|i: int|
            0 <= i < models@.len() ==> (#[trigger] r.feedings@[i]).id == models@[i].id
                && r.feedings@[i].amount_half_scoops == models@[i].amount_half_scoops
                && r.feedings@[i].fed_at@ == models@[i].fed_at@ && r.feedings@[i].edited
                == models@[i].edited,
        forall|i: int|
            0 <= i < treat_models@.len() ==> (#[trigger] r.treats@[i]).id == treat_models@[i].id
                && r.treats@[i].name@ == treat_models@[i].name@ && r.treats@[i].given_at@
                == treat_models@[i].given_at@ && r.treats@[i].edited == treat_models@[i].edited,
{
    let mut total: i32 = 0;
    let mut feedings: Vec<FeedingResponse> = Vec::new();
    let n = models.len();
    let mut i: usize = 0;
    assert(models@.take(0) =~= Seq::<feeding::Model>::empty());
    while i < n
        invariant
            n == models@.len(),
            i <= n,
            running_totals_fit(models@),
            total == half_scoops_total(models@.take(i as int)),
            feedings@.len() == i,
            forall|j: int| 0 <= j < i ==> reports_feeding(#[trigger] feedings@[j], models@[j]),
        decreases n - i,
    {
        proof {
            assert(models@.take(i + 1).drop_last() =~= models@.take(i as int));
            assert(i32::MIN <= half_scoops_total(models@.take(i + 1)) <= i32::MAX);
        }
        total = total + models[i].amount_half_scoops;
        feedings.push(to_response(&models[i]));
        i = i + 1;
    }
    assert(models@.take(n as int) =~= models@);
    let mut treats: Vec<TreatResponse> = Vec::new();
    let m = treat_models.len();
    let mut k: usize = 0;
    while k < m
        invariant
            m == treat_models@.len(),
            k <= m,
            treats@.len() == k,
            forall|j: int| 0 <= j < k ==> reports_treat(#[trigger] treats@[j], treat_models@[j]),
        decreases m - k,
    {
        treats.push(to_treat_response(&treat_models[k]));
        k = k + 1;
    }
    DayResponse { date: String::from_str(date), total_half_scoops: total, feedings, treats }
}

/// What a deletion that touched `rows_affected` rows is answered: not found
/// when none was there.
pub fn delete_outcome(rows_affected: u64) -> (r: Result<(), ApiError>)
    ensures
        r == (if rows_affected == 0 {
            Err::<(), ApiError>(ApiError::NotFound)
        } else {
            Ok(())
        }),
{
    if rows_affected == 0 {
        Err(ApiError::NotFound)
    } else {
        Ok(())
    }
}


/// A date text followed by the time of midnight, the form the stored
/// timestamps compare against.
pub open spec fn at_midnight(date: Seq<char>) -> Seq<char> {
    date + " 00:00:00"@
}

/// The text `date` followed by ` 00:00:00`.
fn midnight_of(date: &str) -> (r: String)
    ensures
        r@ == at_midnight(date@),
{
    let mut r = String::from_str(date);
    r.append(" 00:00:00");
    r
}

/// The day after a valid day that is not the last representable one is valid.
pub proof fn lemma_next_ymd_valid(y: int, m: int, d: int)
    requires
        valid_ymd(y, m, d),
        !is_last_representable(y, m, d),
    ensures
        valid_ymd(next_ymd(y, m, d).0, next_ymd(y, m, d).1, next_ymd(y, m, d).2),
{
}

/// `date` is a day chrono reads and that has a next day.
pub open spec fn day_has_successor(date: Seq<char>) -> bool {
    chrono_date_parse(date) matches Some(t) && !is_last_representable(t.0, t.1, t.2)
}

/// The start of the day after the day `date` names.
pub open spec fn day_end_text(date: Seq<char>) -> Seq<char> {
    let t = chrono_date_parse(date).unwrap();
    let n = next_ymd(t.0, t.1, t.2);
    at_midnight(iso_date_text(n.0, n.1, n.2))
}

/// The window of timestamps of the day `date`: from midnight of the text as
/// given to midnight of the next day, written `YYYY-MM-DD 00:00:00`.
pub fn day_range(date: &str) -> (r: (String, String))
    requires
        day_has_successor(date@),
    ensures
        r.0@ == at_midnight(date@),
        r.1@ == day_end_text(date@),
{
    let start = midnight_of(date);
    let day = parse_iso_date(date).unwrap();
    proof {
        lemma_next_ymd_valid(day.year as int, day.month as int, day.day as int);
    }
    let next = next_date(day).unwrap();
    let next_text = format_iso(next);
    let end = midnight_of(next_text.as_str());
    (start, end)
}

/// The checks of a day request and its window of timestamps: a day chrono
/// cannot read is a bad request; the last day chrono represents has no next
/// day to end its window, which is an internal error.
pub fn day_bounds(date: &str) -> (r: Result<(String, String), ApiError>)
    ensures
        chrono_date_parse(date@) is None ==> r == Err::<(String, String), ApiError>(
            ApiError::BadRequest,
        ),
        chrono_date_parse(date@) is Some && !day_has_successor(date@) ==> r == Err::<
            (String, String),
            ApiError,
        >(ApiError::Internal),
        day_has_successor(date@) ==> (r matches Ok(w) && w.0@ == at_midnight(date@) && w.1@
            == day_end_text(date@)),
        forall|y: int, m: int, d: int|
            #![trigger iso_date_text(y, m, d)]
            four_digit_year_day(y, m, d) && date@ == iso_date_text(y, m, d) ==> (!valid_ymd(y, m, d)
                ==> r == Err::<(String, String), ApiError>(ApiError::BadRequest)) && (valid_ymd(
                y,
                m,
                d,
            ) && !(y == 9999 && m == 12 && d == 31) ==> (r matches Ok(w) && w.0@ == at_midnight(
                iso_date_text(y, m, d),
            ) && w.1@ == at_midnight(
                iso_date_text(next_ymd(y, m, d).0, next_ymd(y, m, d).1, next_ymd(y, m, d).2),
            ))),
{
    match parse_iso_date(date) {
        None => Err(ApiError::BadRequest),
        Some(day) => {
            if day.year == LAST_YEAR && day.month == 12 && day.day == 31 {
                Err(ApiError::Internal)
            } else {
                Ok(day_range(date))
            }
        },
    }
}

/// The `YYYY-MM-DD` text of a day, such as today's date read from the clock;
/// a day chrono does not represent is a bad request.
pub fn day_text(year: i32, month: u32, day: u32) -> (r: Result<String, ApiError>)
    ensures
        r is Ok <==> valid_ymd(year as int, month as int, day as int),
        r matches Ok(t) ==> t@ == iso_date_text(year as int, month as int, day as int),
        r matches Err(e) ==> e == ApiError::BadRequest,
{
    match ymd_date(year, month, day) {
        Some(d) => Ok(format_iso(d)),
        None => Err(ApiError::BadRequest),
    }
}

/// The first day of the month after `(y, m)`.
pub open spec fn next_month(y: int, m: int) -> (int, int) {
    if m == 12 {
        (y + 1, 1)
    } else {
        (y, m + 1)
    }
}

/// The window of timestamps of month `m` of year `y`: from midnight of its
/// first day to midnight of the first day of the next month, when both days
/// exist for chrono.
pub open spec fn month_window(y: int, m: int) -> Option<(Seq<char>, Seq<char>)> {
    let (ny, nm) = next_month(y, m);
    if valid_ymd(y, m, 1) && valid_ymd(ny, nm, 1) {
        Some((at_midnight(iso_date_text(y, m, 1)), at_midnight(iso_date_text(ny, nm, 1))))
    } else {
        None
    }
}

/// The window of timestamps of a month; a month chrono cannot represent, or
/// whose next month it cannot, is a bad request.
pub fn month_range(year: i32, month: u32) -> (r: Result<(String, String), ApiError>)
    ensures
        r is Ok <==> month_window(year as int, month as int) is Some,
        r matches Ok(w) ==> month_window(year as int, month as int) == Some((w.0@, w.1@)),
        r matches Err(e) ==> e == ApiError::BadRequest,
        r is Ok <==> (min_year() <= year <= max_year() && 1 <= month <= 12 && !(year == max_year()
            && month == 12)),
        r matches Ok(w) ==> w.0@ == at_midnight(iso_date_text(year as int, month as int, 1)),
        r matches Ok(w) ==> w.1@ == at_midnight(
            if month == 12 {
                iso_date_text(year + 1, 1, 1)
            } else {
                iso_date_text(year as int, month + 1, 1)
            },
        ),
{
    let start = match ymd_date(year, month, 1) {
        Some(d) => d,
        None => {
            return Err(ApiError::BadRequest);
        },
    };
    let end = if month == 12 {
        ymd_date(year + 1, 1, 1)
    } else {
        ymd_date(year, month + 1, 1)
    };
    let end = match end {
        Some(d) => d,
        None => {
            return Err(ApiError::BadRequest);
        },
    };
    let start_text = format_iso(start);
    let end_text = format_iso(end);
    Ok((midnight_of(start_text.as_str()), midnight_of(end_text.as_str())))
}

/// A time of day written ` HH:MM:SS`, the part of a stored timestamp after
/// its date.
pub open spec fn is_clock_text(c: Seq<char>) -> bool {
    &&& c.len() == 9
    &&& c[0] == ' '
    &&& c[3] == ':'
    &&& c[6] == ':'
    &&& forall|i: int|
        0 <= i < 9 && i != 0 && i != 3 && i != 6 ==> 48 <= #[trigger] (c[i] as int) <= 57
}

proof fn lemma_clock_not_before_midnight(c: Seq<char>)
    requires
        is_clock_text(c),
    ensures
        !text_less(c, " 00:00:00"@),
{
    reveal_strlit(" 00:00:00");
    let mid = " 00:00:00"@;
    assert forall|i: int| 0 <= i < c.len() implies (c[i] as int) >= (mid[i] as int) by {
        if i != 0 && i != 3 && i != 6 {
            assert(48 <= (c[i] as int) <= 57);
        }
    }
    lemma_not_less_pointwise(c, mid);
}

/// Between a day and the next there is no other valid day.
proof fn lemma_no_day_between(y: int, m: int, d: int, y2: int, m2: int, d2: int)
    requires
        valid_ymd(y, m, d),
        valid_ymd(y2, m2, d2),
        ymd_before(y, m, d, y2, m2, d2),
    ensures
        !ymd_before(y2, m2, d2, next_ymd(y, m, d).0, next_ymd(y, m, d).1, next_ymd(y, m, d).2),
{
}

/// A stored timestamp `date + clock` against the window `[start, end)` whose
/// bounds are midnights of `YYYY-MM-DD` days of four-digit years.
proof fn lemma_window_compare(
    y2: int,
    m2: int,
    d2: int,
    clock: Seq<char>,
    y: int,
    m: int,
    d: int,
)
    requires
        four_digit_year_day(y2, m2, d2),
        four_digit_year_day(y, m, d),
        is_clock_text(clock),
    ensures
        text_less(iso_date_text(y2, m2, d2) + clock, at_midnight(iso_date_text(y, m, d)))
            <==> ymd_before(y2, m2, d2, y, m, d),
{
    lemma_iso_order(y2, m2, d2, y, m, d);
    lemma_iso_order(y, m, d, y2, m2, d2);
    lemma_text_less_concat(iso_date_text(y2, m2, d2), clock, iso_date_text(y, m, d), " 00:00:00"@);
    lemma_clock_not_before_midnight(clock);
}

/// The day window holds exactly that day's timestamps: for a day of a
/// four-digit year that has a next day, a timestamp `YYYY-MM-DD HH:MM:SS` of
/// a valid day lies at or after the window's start and before its end (as
/// text, which is how the database compares them) exactly when its date part
/// is that day. The window is the one `day_bounds` gives for the day's
/// `YYYY-MM-DD` text: that day at midnight to the next day at midnight.
pub proof fn lemma_day_window_is_the_day(
    y: int,
    m: int,
    d: int,
    y2: int,
    m2: int,
    d2: int,
    clock: Seq<char>,
)
    requires
        valid_ymd(y, m, d),
        0 <= y <= 9999,
        !(y == 9999 && m == 12 && d == 31),
        valid_ymd(y2, m2, d2),
        0 <= y2 <= 9999,
        is_clock_text(clock),
    ensures
        ({
            let ts = iso_date_text(y2, m2, d2) + clock;
            let n = next_ymd(y, m, d);
            (!text_less(ts, at_midnight(iso_date_text(y, m, d))) && text_less(
                ts,
                at_midnight(iso_date_text(n.0, n.1, n.2)),
            )) <==> date_key(ts) == iso_date_text(y, m, d)
        }),
{
    let n = next_ymd(y, m, d);
    lemma_next_ymd_valid(y, m, d);
    lemma_window_compare(y2, m2, d2, clock, y, m, d);
    lemma_window_compare(y2, m2, d2, clock, n.0, n.1, n.2);
    lemma_iso_space_free(y2, m2, d2);
    lemma_date_key_concat(iso_date_text(y2, m2, d2), clock);
    lemma_iso_order(y2, m2, d2, y, m, d);
    if ymd_before(y, m, d, y2, m2, d2) {
        lemma_no_day_between(y, m, d, y2, m2, d2);
    }
}

/// The month window holds exactly that month's timestamps: for a month
/// whose window exists and whose next month lies in a four-digit year, a
/// timestamp `YYYY-MM-DD HH:MM:SS` of a valid day of a four-digit year lies
/// in the window (compared as text) exactly when it falls in that month.
pub proof fn lemma_month_window_is_the_month(
    y: int,
    m: int,
    y2: int,
    m2: int,
    d2: int,
    clock: Seq<char>,
)
    requires
        month_window(y, m) is Some,
        0 <= y,
        next_month(y, m).0 <= 9999,
        valid_ymd(y2, m2, d2),
        0 <= y2 <= 9999,
        is_clock_text(clock),
    ensures
        ({
            let ts = iso_date_text(y2, m2, d2) + clock;
            let w = month_window(y, m).unwrap();
            (!text_less(ts, w.0) && text_less(ts, w.1)) <==> (y2 == y && m2 == m)
        }),
{
    let (ny, nm) = next_month(y, m);
    lemma_window_compare(y2, m2, d2, clock, y, m, 1);
    lemma_window_compare(y2, m2, d2, clock, ny, nm, 1);
}

/// `ts` lies in the window `[w.0, w.1)`, compared as text as the database
/// compares them.
pub open spec fn in_window(ts: Seq<char>, w: (Seq<char>, Seq<char>)) -> bool {
    !text_less(ts, w.0) && text_less(ts, w.1)
}

/// The feedings a window query returns, in their order.
pub open spec fn feedings_in_window(fs: Seq<feeding::Model>, w: (Seq<char>, Seq<char>)) -> Seq<
    feeding::Model,
> {
    fs.filter(|f: feeding::Model| in_window(f.fed_at@, w))
}

/// The treats a window query returns, in their order.
pub open spec fn treats_in_window(ts: Seq<treat::Model>, w: (Seq<char>, Seq<char>)) -> Seq<
    treat::Model,
> {
    ts.filter(|t: treat::Model| in_window(t.given_at@, w))
}

/// The month calendar ignores a feeding outside the month's window: the
/// calendar of the window's rows with that feeding added lists the same dates
/// with the same totals as without it.
pub proof fn lemma_month_calendar_ignores_feeding_outside(
    y: int,
    m: int,
    fs: Seq<feeding::Model>,
    ts: Seq<treat::Model>,
    f: feeding::Model,
    v: Seq<CalendarDay>,
    v2: Seq<CalendarDay>,
)
    requires
        month_window(y, m) is Some,
        !in_window(f.fed_at@, month_window(y, m).unwrap()),
        is_calendar_of(
            v,
            feedings_in_window(fs, month_window(y, m).unwrap()),
            treats_in_window(ts, month_window(y, m).unwrap()),
        ),
        is_calendar_of(
            v2,
            feedings_in_window(fs.push(f), month_window(y, m).unwrap()),
            treats_in_window(ts, month_window(y, m).unwrap()),
        ),
    ensures
        v.len() == v2.len(),
        forall|i: int|
            0 <= i < v.len() ==> (#[trigger] v[i]).date@ == v2[i].date@ && v[i].total_half_scoops
                == v2[i].total_half_scoops && v[i].treat_count == v2[i].treat_count,
{
    let w = month_window(y, m).unwrap();
    reveal(Seq::filter);
    assert(fs.push(f).drop_last() =~= fs);
    assert(feedings_in_window(fs.push(f), w) == feedings_in_window(fs, w));
    let f1 = feedings_in_window(fs, w);
    let t1 = treats_in_window(ts, w);
    lemma_calendar_determined(v, f1, t1, v2, f1, t1);
}

/// The month calendar ignores a treat outside the month's window.
pub proof fn lemma_month_calendar_ignores_treat_outside(
    y: int,
    m: int,
    fs: Seq<feeding::Model>,
    ts: Seq<treat::Model>,
    t: treat::Model,
    v: Seq<CalendarDay>,
    v2: Seq<CalendarDay>,
)
    requires
        month_window(y, m) is Some,
        !in_window(t.given_at@, month_window(y, m).unwrap()),
        is_calendar_of(
            v,
            feedings_in_window(fs, month_window(y, m).unwrap()),
            treats_in_window(ts, month_window(y, m).unwrap()),
        ),
        is_calendar_of(
            v2,
            feedings_in_window(fs, month_window(y, m).unwrap()),
            treats_in_window(ts.push(t), month_window(y, m).unwrap()),
        ),
    ensures
        v.len() == v2.len(),
        forall|i: int|
            0 <= i < v.len() ==> (#[trigger] v[i]).date@ == v2[i].date@ && v[i].total_half_scoops
                == v2[i].total_half_scoops && v[i].treat_count == v2[i].treat_count,
{
    let w = month_window(y, m).unwrap();
    reveal(Seq::filter);
    assert(ts.push(t).drop_last() =~= ts);
    assert(treats_in_window(ts.push(t), w) == treats_in_window(ts, w));
    let f1 = feedings_in_window(fs, w);
    let t1 = treats_in_window(ts, w);
    lemma_calendar_determined(v, f1, t1, v2, f1, t1);
}

/// A feeding stamped in another month never shows in a month's calendar: for
/// a month whose window exists and whose next month has a four-digit year, a
/// feeding at `YYYY-MM-DD HH:MM:SS` of a valid day of a four-digit year in a
/// different month lies outside the window, so the calendar of the window's
/// rows is the same with it as without it.
pub proof fn lemma_month_calendar_ignores_other_months(
    y: int,
    m: int,
    fs: Seq<feeding::Model>,
    ts: Seq<treat::Model>,
    f: feeding::Model,
    y2: int,
    m2: int,
    d2: int,
    clock: Seq<char>,
    v: Seq<CalendarDay>,
    v2: Seq<CalendarDay>,
)
    requires
        month_window(y, m) is Some,
        0 <= y,
        next_month(y, m).0 <= 9999,
        valid_ymd(y2, m2, d2),
        0 <= y2 <= 9999,
        is_clock_text(clock),
        f.fed_at@ == iso_date_text(y2, m2, d2) + clock,
        !(y2 == y && m2 == m),
        is_calendar_of(
            v,
            feedings_in_window(fs, month_window(y, m).unwrap()),
            treats_in_window(ts, month_window(y, m).unwrap()),
        ),
        is_calendar_of(
            v2,
            feedings_in_window(fs.push(f), month_window(y, m).unwrap()),
            treats_in_window(ts, month_window(y, m).unwrap()),
        ),
    ensures
        v.len() == v2.len(),
        forall|i: int|
            0 <= i < v.len() ==> (#[trigger] v[i]).date@ == v2[i].date@ && v[i].total_half_scoops
                == v2[i].total_half_scoops && v[i].treat_count == v2[i].treat_count,
{
    lemma_month_window_is_the_month(y, m, y2, m2, d2, clock);
    lemma_month_calendar_ignores_feeding_outside(y, m, fs, ts, f, v, v2);
}

/// Every month chrono represents has a window, except the last month of its
/// last year (which has no next month), whatever the length of the month: it
/// runs from midnight of the month's first day.
pub proof fn lemma_every_month_has_a_window(y: int, m: int)
    requires
        min_year() <= y <= max_year(),
        1 <= m <= 12,
        !(y == max_year() && m == 12),
    ensures
        month_window(y, m) is Some,
        month_window(y, m).unwrap().0 == at_midnight(iso_date_text(y, m, 1)),
{
}

/// Consecutive month windows meet: each ends where the next begins, and a
/// December's window ends at the first of January of the following year.
pub proof fn lemma_month_windows_meet(y: int, m: int)
    requires
        month_window(y, m) is Some,
        month_window(next_month(y, m).0, next_month(y, m).1) is Some,
    ensures
        month_window(y, m).unwrap().1 == month_window(next_month(y, m).0, next_month(y, m).1).unwrap().0,
        m == 12 ==> month_window(y, m).unwrap().1 == at_midnight(iso_date_text(y + 1, 1, 1)),
{
}


/// The `Cache-Control` value for an asset path: the hashed files under
/// `assets/` are cached for a year, everything else is revalidated.
pub open spec fn cache_control_text(path: Seq<char>) -> Seq<char> {
    if "assets/"@.is_prefix_of(path) {
        "public, max-age=31536000, immutable"@
    } else {
        "no-cache"@
    }
}

/// Only paths under `assets/` are cached for a year: a path gets the
/// immutable value exactly when its first seven characters are `assets/`,
/// and every other path gets `no-cache`.
pub proof fn lemma_cache_control_only_assets(path: Seq<char>)
    ensures
        cache_control_text(path) == "public, max-age=31536000, immutable"@ <==> (path.len() >= 7
            && path[0] == 'a' && path[1] == 's' && path[2] == 's' && path[3] == 'e' && path[4] == 't'
            && path[5] == 's' && path[6] == '/'),
        cache_control_text(path) != "public, max-age=31536000, immutable"@ ==> cache_control_text(
            path,
        ) == "no-cache"@,
        cache_control_text(path) == "public, max-age=31536000, immutable"@ <==> path.len() >= 7
            && path.take(7) == "assets/"@,
{
    reveal_strlit("assets/");
    reveal_strlit("no-cache");
    reveal_strlit("public, max-age=31536000, immutable");
    let p = "assets/"@;
    if path.len() >= 7 && path[0] == 'a' && path[1] == 's' && path[2] == 's' && path[3] == 'e'
        && path[4] == 't' && path[5] == 's' && path[6] == '/' {
        assert(p =~= path.subrange(0, 7));
        assert(path.take(7) =~= p);
    }
    if p.is_prefix_of(path) {
        assert(p == path.subrange(0, 7));
        assert forall|i: int| 0 <= i < 7 implies path[i] == p[i] by {
            assert(path.subrange(0, 7)[i] == path[i]);
        }
        assert(path[0] == 'a' && path[1] == 's' && path[2] == 's' && path[3] == 'e'
            && path[4] == 't' && path[5] == 's' && path[6] == '/');
    }
    if path.len() >= 7 && path.take(7) == p {
        assert(path.take(7)[0] == path[0]);
        assert(path.take(7)[6] == path[6]);
    }
    assert("no-cache"@ != "public, max-age=31536000, immutable"@) by {
        assert("no-cache"@.len() != "public, max-age=31536000, immutable"@.len());
    }
}

/// Picks the `Cache-Control` value for a given asset path. The front-end
/// build writes hashed file names under `assets/`, which are safe to cache;
/// everything else (notably `index.html`) is always revalidated, so that
/// installed pages pick up new builds.
pub fn cache_control_for(path: &str) -> (r: &'static str)
    ensures
        r@ == cache_control_text(path@),
        r@ == "public, max-age=31536000, immutable"@ || r@ == "no-cache"@,
        r@ == "public, max-age=31536000, immutable"@ <==> path@.len() >= 7 && path@.take(7)
            == "assets/"@,
{
    proof {
        lemma_cache_control_only_assets(path@);
    }
    if begins_with(path, "assets/") {
        "public, max-age=31536000, immutable"
    } else {
        "no-cache"
    }
}

/// The embedded file a request path names: the path without its leading
/// slashes, and `index.html` for the root.
pub open spec fn asset_path(uri_path: Seq<char>) -> Seq<char> {
    if strip_leading_slashes(uri_path).len() == 0 {
        "index.html"@
    } else {
        strip_leading_slashes(uri_path)
    }
}

/// The embedded file that a request path names.
pub fn frontend_path(uri_path: &str) -> (r: String)
    ensures
        r@ == asset_path(uri_path@),
        r@.len() > 0,
        r@[0] != '/',
        r@ != "index.html"@ ==> r@.is_suffix_of(uri_path@) && (forall|i: int|
            0 <= i < uri_path@.len() - r@.len() ==> #[trigger] uri_path@[i] == '/'),
{
    proof {
        lemma_strip_leading_slashes_removes_only_slashes(uri_path@);
        reveal_strlit("index.html");
        let t = strip_leading_slashes(uri_path@);
        if t.len() > 0 {
            assert(t =~= uri_path@.subrange(uri_path@.len() - t.len(), uri_path@.len() as int));
        }
    }
    let path = trim_leading_slashes(uri_path);
    if path.as_str().unicode_len() == 0 {
        String::from_str("index.html")
    } else {
        path
    }
}

/// The media type that `mime_guess` guesses for a path from its extension.
pub uninterp spec fn guessed_media_type(path: Seq<char>) -> Seq<char>;

/// Wraps `mime_guess::from_path(path).first_or_octet_stream()`, written out as
/// text. The guess goes by the extension alone, through a fixed table, and is
/// named `guessed_media_type`; what is stated besides is that a path without
/// any `.` has no extension and so gets `application/octet-stream`.
#[verifier::external_body]
fn media_type_for(path: &str) -> (r: String)
    ensures
        r@ == guessed_media_type(path@),
        !path@.contains('.') ==> r@ == "application/octet-stream"@,
{
    let mime = mime_guess::from_path(path).first_or_octet_stream();
    let text: &str = mime.as_ref();
    text.to_string()
}

/// A file of the front end, ready to be sent with status 200.
#[derive(Debug)]
pub struct FrontendFile {
    pub content_type: String,
    pub cache_control: String,
    pub body: Vec<u8>,
}

/// How a front-end request for `path` is answered: the embedded file at
/// `path` when there is one, typed by its extension; otherwise the embedded
/// `index.html`, so that the single-page app handles any other route; not
/// found only when neither exists.
pub fn frontend_reply(path: &str, asset: Option<Vec<u8>>, index: Option<Vec<u8>>) -> (r: Result<
    FrontendFile,
    ApiError,
>)
    ensures
        asset matches Some(b) ==> (r matches Ok(f) && f.content_type@ == guessed_media_type(path@)
            && f.cache_control@ == cache_control_text(path@) && f.body@ == b@),
        asset is None && index is Some ==> (r matches Ok(f) && f.content_type@ == "text/html"@
            && f.cache_control@ == "no-cache"@ && f.body@ == index.unwrap()@),
        asset is None && index is None ==> r == Err::<FrontendFile, ApiError>(ApiError::NotFound),
{
    match asset {
        Some(body) => {
            let content_type = media_type_for(path);
            let cache_control = String::from_str(cache_control_for(path));
            Ok(FrontendFile { content_type, cache_control, body })
        },
        None => match index {
            Some(body) => Ok(
                FrontendFile {
                    content_type: String::from_str("text/html"),
                    cache_control: String::from_str("no-cache"),
                    body,
                },
            ),
            None => Err(ApiError::NotFound),
        },
    }
}

} // verus!
