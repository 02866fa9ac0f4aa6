//! The month calendar: per-day totals of feedings and treats, one entry per
//! day that has any, in date order.
use crate::feeding;
use crate::text::{date_key, date_part, lemma_text_less_asymmetric, lemma_text_less_irreflexive,
    lemma_text_less_total, lemma_text_less_transitive, text_before, text_less};
use crate::treat;
use vstd::prelude::*;

verus! {

/// One day of the calendar: its date (`YYYY-MM-DD`), the half scoops fed on
/// it and the number of treats given on it.
#[derive(Debug)]
pub struct CalendarDay {
    pub date: String,
    pub total_half_scoops: i32,
    pub treat_count: usize,
}

/// The half scoops fed on `day` (by the date part of `fed_at`).
pub open spec fn day_half_scoops(fs: Seq<feeding::Model>, day: Seq<char>) -> int
    decreases fs.len(),
{
    if fs.len() == 0 {
        0
    } else {
        day_half_scoops(fs.drop_last(), day) + if date_key(fs.last().fed_at@) == day {
            fs.last().amount_half_scoops as int
        } else {
            0
        }
    }
}

/// The number of treats given on `day` (by the date part of `given_at`).
pub open spec fn day_treats(ts: Seq<treat::Model>, day: Seq<char>) -> int
    decreases ts.len(),
{
    if ts.len() == 0 {
        0
    } else {
        day_treats(ts.drop_last(), day) + if date_key(ts.last().given_at@) == day {
            1int
        } else {
            0
        }
    }
}

/// All half scoops of the feedings.
pub open spec fn half_scoops_total(fs: Seq<feeding::Model>) -> int
    decreases fs.len(),
{
    if fs.len() == 0 {
        0
    } else {
        half_scoops_total(fs.drop_last()) + fs.last().amount_half_scoops
    }
}

/// The half scoops of all calendar entries.
pub open spec fn calendar_half_scoops(days: Seq<CalendarDay>) -> int
    decreases days.len(),
{
    if days.len() == 0 {
        0
    } else {
        calendar_half_scoops(days.drop_last()) + days.last().total_half_scoops
    }
}

/// The treats of all calendar entries.
pub open spec fn calendar_treats(days: Seq<CalendarDay>) -> int
    decreases days.len(),
{
    if days.len() == 0 {
        0
    } else {
        calendar_treats(days.drop_last()) + days.last().treat_count
    }
}

/// Adding the feedings up in their order, day by day, stays within `i32`,
/// as the running per-day sums in `i32` need.
pub open spec fn day_sums_fit(fs: Seq<feeding::Model>) -> bool {
    forall|k: int, day: Seq<char>|
        0 <= k <= fs.len() ==> i32::MIN <= #[trigger] day_half_scoops(fs.take(k), day)
            <= i32::MAX
}

/// The entries' dates rise strictly.
pub open spec fn strictly_ascending(days: Seq<CalendarDay>) -> bool {
    forall|a: int, b: int|
        0 <= a < b < days.len() ==> text_less(#[trigger] days[a].date@, #[trigger] days[b].date@)
}

/// `day` has an entry.
pub open spec fn has_day(days: Seq<CalendarDay>, day: Seq<char>) -> bool {
    exists|j: int| 0 <= j < days.len() && #[trigger] days[j].date@ == day
}

/// Some feeding among the first `n` falls on `day`.
pub open spec fn fed_on(fs: Seq<feeding::Model>, n: int, day: Seq<char>) -> bool {
    exists|k: int| 0 <= k < n && #[trigger] date_key(fs[k].fed_at@) == day
}

/// Some treat among the first `n` falls on `day`.
pub open spec fn treated_on(ts: Seq<treat::Model>, n: int, day: Seq<char>) -> bool {
    exists|k: int| 0 <= k < n && #[trigger] date_key(ts[k].given_at@) == day
}

proof fn lemma_day_half_scoops_step(fs: Seq<feeding::Model>, i: int, day: Seq<char>)
    requires
        0 <= i < fs.len(),
    ensures
        day_half_scoops(fs.take(i + 1), day) == day_half_scoops(fs.take(i), day) + if date_key(
            fs[i].fed_at@,
        ) == day {
            fs[i].amount_half_scoops as int
        } else {
            0
        },
{
    assert(fs.take(i + 1).drop_last() =~= fs.take(i));
}

proof fn lemma_day_treats_step(ts: Seq<treat::Model>, i: int, day: Seq<char>)
    requires
        0 <= i < ts.len(),
    ensures
        day_treats(ts.take(i + 1), day) == day_treats(ts.take(i), day) + if date_key(
            ts[i].given_at@,
        ) == day {
            1int
        } else {
            0
        },
{
    assert(ts.take(i + 1).drop_last() =~= ts.take(i));
}

proof fn lemma_half_scoops_total_step(fs: Seq<feeding::Model>, i: int)
    requires
        0 <= i < fs.len(),
    ensures
        half_scoops_total(fs.take(i + 1)) == half_scoops_total(fs.take(i))
            + fs[i].amount_half_scoops,
{
    assert(fs.take(i + 1).drop_last() =~= fs.take(i));
}

/// No feeding among the first `n` on `day`: nothing fed on it in them.
proof fn lemma_day_half_scoops_absent(fs: Seq<feeding::Model>, n: int, day: Seq<char>)
    requires
        0 <= n <= fs.len(),
        !fed_on(fs, n, day),
    ensures
        day_half_scoops(fs.take(n), day) == 0,
    decreases n,
{
    if n > 0 {
        assert(!fed_on(fs, n - 1, day)) by {
            if fed_on(fs, n - 1, day) {
                let k = choose|k: int| 0 <= k < n - 1 && #[trigger] date_key(fs[k].fed_at@) == day;
                assert(date_key(fs[k].fed_at@) == day);
            }
        }
        assert(date_key(fs[n - 1].fed_at@) != day);
        lemma_day_half_scoops_absent(fs, n - 1, day);
        lemma_day_half_scoops_step(fs, n - 1, day);
    } else {
        assert(fs.take(0) =~= Seq::<feeding::Model>::empty());
    }
}

/// No treat among the first `n` on `day`: no treats counted for it in them.
proof fn lemma_day_treats_absent(ts: Seq<treat::Model>, n: int, day: Seq<char>)
    requires
        0 <= n <= ts.len(),
        !treated_on(ts, n, day),
    ensures
        day_treats(ts.take(n), day) == 0,
    decreases n,
{
    if n > 0 {
        assert(!treated_on(ts, n - 1, day)) by {
            if treated_on(ts, n - 1, day) {
                let k = choose|k: int| 0 <= k < n - 1 && #[trigger] date_key(ts[k].given_at@) == day;
                assert(date_key(ts[k].given_at@) == day);
            }
        }
        assert(date_key(ts[n - 1].given_at@) != day);
        lemma_day_treats_absent(ts, n - 1, day);
        lemma_day_treats_step(ts, n - 1, day);
    } else {
        assert(ts.take(0) =~= Seq::<treat::Model>::empty());
    }
}

proof fn lemma_day_treats_bound(ts: Seq<treat::Model>, day: Seq<char>)
    ensures
        0 <= day_treats(ts, day) <= ts.len(),
    decreases ts.len(),
{
    if ts.len() > 0 {
        lemma_day_treats_bound(ts.drop_last(), day);
    }
}

proof fn lemma_calendar_sums_update(days: Seq<CalendarDay>, p: int, x: CalendarDay)
    requires
        0 <= p < days.len(),
    ensures
        calendar_half_scoops(days.update(p, x)) == calendar_half_scoops(days)
            - days[p].total_half_scoops + x.total_half_scoops,
        calendar_treats(days.update(p, x)) == calendar_treats(days) - days[p].treat_count
            + x.treat_count,
    decreases days.len(),
{
    if p < days.len() - 1 {
        assert(days.update(p, x).drop_last() =~= days.drop_last().update(p, x));
        lemma_calendar_sums_update(days.drop_last(), p, x);
    } else {
        assert(days.update(p, x).drop_last() =~= days.drop_last());
    }
}

proof fn lemma_calendar_sums_insert(days: Seq<CalendarDay>, p: int, x: CalendarDay)
    requires
        0 <= p <= days.len(),
    ensures
        calendar_half_scoops(days.insert(p, x)) == calendar_half_scoops(days)
            + x.total_half_scoops,
        calendar_treats(days.insert(p, x)) == calendar_treats(days) + x.treat_count,
    decreases days.len(),
{
    if p < days.len() {
        assert(days.insert(p, x).drop_last() =~= days.drop_last().insert(p, x));
        lemma_calendar_sums_insert(days.drop_last(), p, x);
    } else {
        assert(days.insert(p, x).drop_last() =~= days);
    }
}

/// Where `key` belongs among the ascending entries: the first position whose
/// date is not before `key`, and whether that entry is `key`'s own.
fn locate(days: &Vec<CalendarDay>, key: &String) -> (r: (usize, bool))
    requires
        strictly_ascending(days@),
    ensures
        r.0 <= days@.len(),
        forall|q: int| 0 <= q < r.0 ==> text_less(#[trigger] days@[q].date@, key@),
        r.0 < days@.len() ==> !text_less(days@[r.0 as int].date@, key@),
        r.1 <==> r.0 < days@.len() && days@[r.0 as int].date@ == key@,
        !r.1 ==> !has_day(days@, key@),
{
    let n = days.len();
    let mut p: usize = 0;
    loop
        invariant
            n == days@.len(),
            p <= n,
            forall|q: int| 0 <= q < p ==> text_less(#[trigger] days@[q].date@, key@),
        ensures
            p <= n,
            forall|q: int| 0 <= q < p ==> text_less(#[trigger] days@[q].date@, key@),
            p < n ==> !text_less(days@[p as int].date@, key@),
        decreases n - p,
    {
        if p == n {
            break;
        }
        if !text_before(days[p].date.as_str(), key.as_str()) {
            break;
        }
        p = p + 1;
    }
    let found = p < n && days[p].date == *key;
    if !found {
        assert(!has_day(days@, key@)) by {
            if has_day(days@, key@) {
                let j = choose|j: int| 0 <= j < days@.len() && #[trigger] days@[j].date@ == key@;
                if j < p {
                    lemma_text_less_irreflexive(key@);
                } else {
                    assert(p < n);
                    lemma_text_less_total(days@[p as int].date@, key@);
                    if j > p {
                        assert(text_less(days@[p as int].date@, days@[j].date@));
                        lemma_text_less_transitive(key@, days@[p as int].date@, key@);
                        lemma_text_less_irreflexive(key@);
                    }
                }
            }
        }
    }
    (p, found)
}

/// Inserting `x` at `p` keeps the entries ascending when every entry before
/// `p` comes before `x`'s date and the entry at `p`, if any, after it.
proof fn lemma_insert_keeps_ascending(days: Seq<CalendarDay>, p: int, x: CalendarDay)
    requires
        strictly_ascending(days),
        0 <= p <= days.len(),
        forall|q: int| 0 <= q < p ==> text_less(#[trigger] days[q].date@, x.date@),
        p < days.len() ==> text_less(x.date@, days[p].date@),
    ensures
        strictly_ascending(days.insert(p, x)),
{
    let s = days.insert(p, x);
    assert forall|a: int, b: int| 0 <= a < b < s.len() implies text_less(
        #[trigger] s[a].date@,
        #[trigger] s[b].date@,
    ) by {
        if b < p {
            assert(s[a] == days[a]);
            assert(s[b] == days[b]);
            assert(text_less(days[a].date@, days[b].date@));
        } else if b == p {
            assert(s[a] == days[a]);
            assert(s[b] == x);
        } else if a < p {
            assert(s[a] == days[a]);
            assert(s[b] == days[b - 1]);
            assert(text_less(days[a].date@, days[p].date@));
            if b - 1 > p {
                assert(text_less(days[p].date@, days[b - 1].date@));
                lemma_text_less_transitive(days[a].date@, days[p].date@, days[b - 1].date@);
            }
        } else if a == p {
            assert(s[a] == x);
            assert(s[b] == days[b - 1]);
            if b - 1 > p {
                assert(text_less(days[p].date@, days[b - 1].date@));
                lemma_text_less_transitive(x.date@, days[p].date@, days[b - 1].date@);
            }
        } else {
            assert(s[a] == days[a - 1]);
            assert(s[b] == days[b - 1]);
            assert(text_less(days[a - 1].date@, days[b - 1].date@));
        }
    }
}


/// What the entries hold once the first `i` feedings are counted in.
spec fn feed_state(days: Seq<CalendarDay>, fs: Seq<feeding::Model>, i: int) -> bool {
    &&& strictly_ascending(days)
    &&& forall|j: int|
        0 <= j < days.len() ==> (#[trigger] days[j]).total_half_scoops == day_half_scoops(
            fs.take(i),
            days[j].date@,
        )
    &&& forall|j: int| 0 <= j < days.len() ==> (#[trigger] days[j]).treat_count == 0
    &&& forall|j: int| 0 <= j < days.len() ==> fed_on(fs, i, (#[trigger] days[j]).date@)
    &&& forall|d: Seq<char>| #[trigger] fed_on(fs, i, d) ==> has_day(days, d)
    &&& calendar_half_scoops(days) == half_scoops_total(fs.take(i))
    &&& calendar_treats(days) == 0
}

proof fn lemma_fed_on_grow(fs: Seq<feeding::Model>, i: int, d: Seq<char>)
    requires
        0 <= i < fs.len(),
    ensures
        fed_on(fs, i + 1, d) <==> fed_on(fs, i, d) || date_key(fs[i].fed_at@) == d,
{
    if fed_on(fs, i + 1, d) && !fed_on(fs, i, d) {
        let k = choose|k: int| 0 <= k < i + 1 && #[trigger] date_key(fs[k].fed_at@) == d;
        assert(k == i);
    }
    if date_key(fs[i].fed_at@) == d {
        assert(fed_on(fs, i + 1, d));
    }
    if fed_on(fs, i, d) {
        let k = choose|k: int| 0 <= k < i && #[trigger] date_key(fs[k].fed_at@) == d;
        assert(fed_on(fs, i + 1, d));
    }
}

/// Entries with ascending dates have distinct dates.
proof fn lemma_ascending_distinct(days: Seq<CalendarDay>, a: int, b: int)
    requires
        strictly_ascending(days),
        0 <= a < days.len(),
        0 <= b < days.len(),
        a != b,
    ensures
        days[a].date@ != days[b].date@,
{
    if a < b {
        assert(text_less(days[a].date@, days[b].date@));
    } else {
        assert(text_less(days[b].date@, days[a].date@));
    }
    lemma_text_less_irreflexive(days[a].date@);
}

/// Counting feeding `i` into the entry of its own day.
proof fn lemma_feed_into_existing(
    days: Seq<CalendarDay>,
    fs: Seq<feeding::Model>,
    i: int,
    p: int,
    x: CalendarDay,
)
    requires
        feed_state(days, fs, i),
        0 <= i < fs.len(),
        0 <= p < days.len(),
        days[p].date@ == date_key(fs[i].fed_at@),
        x.date@ == days[p].date@,
        x.total_half_scoops == days[p].total_half_scoops + fs[i].amount_half_scoops,
        x.treat_count == 0,
    ensures
        feed_state(days.update(p, x), fs, i + 1),
{
    let key = date_key(fs[i].fed_at@);
    let s = days.update(p, x);
    assert forall|a: int, b: int| 0 <= a < b < s.len() implies text_less(
        #[trigger] s[a].date@,
        #[trigger] s[b].date@,
    ) by {
        assert(text_less(days[a].date@, days[b].date@));
    }
    assert forall|j: int| 0 <= j < s.len() implies (#[trigger] s[j]).total_half_scoops
        == day_half_scoops(fs.take(i + 1), s[j].date@) by {
        lemma_day_half_scoops_step(fs, i, s[j].date@);
        if j != p {
            lemma_ascending_distinct(days, j, p);
        }
    }
    assert forall|j: int| 0 <= j < s.len() implies fed_on(fs, i + 1, (#[trigger] s[j]).date@) by {
        lemma_fed_on_grow(fs, i, s[j].date@);
        assert(fed_on(fs, i, days[j].date@));
    }
    assert forall|d: Seq<char>| #[trigger] fed_on(fs, i + 1, d) implies has_day(s, d) by {
        lemma_fed_on_grow(fs, i, d);
        if fed_on(fs, i, d) {
            assert(has_day(days, d));
            let j = choose|j: int| 0 <= j < days.len() && #[trigger] days[j].date@ == d;
            assert(s[j].date@ == d);
        } else {
            assert(s[p].date@ == d);
        }
    }
    lemma_calendar_sums_update(days, p, x);
    lemma_half_scoops_total_step(fs, i);
}

/// Counting feeding `i` in a new entry for its day, placed where it keeps the
/// dates ascending.
proof fn lemma_feed_into_new(
    days: Seq<CalendarDay>,
    fs: Seq<feeding::Model>,
    i: int,
    p: int,
    x: CalendarDay,
)
    requires
        feed_state(days, fs, i),
        0 <= i < fs.len(),
        0 <= p <= days.len(),
        x.date@ == date_key(fs[i].fed_at@),
        !has_day(days, x.date@),
        forall|q: int| 0 <= q < p ==> text_less(#[trigger] days[q].date@, x.date@),
        p < days.len() ==> !text_less(days[p].date@, x.date@),
        x.total_half_scoops == fs[i].amount_half_scoops,
        x.treat_count == 0,
    ensures
        feed_state(days.insert(p, x), fs, i + 1),
{
    let key = x.date@;
    let s = days.insert(p, x);
    if p < days.len() {
        lemma_text_less_total(days[p].date@, key);
    }
    lemma_insert_keeps_ascending(days, p, x);
    assert(!fed_on(fs, i, key));
    lemma_day_half_scoops_absent(fs, i, key);
    assert forall|j: int| 0 <= j < s.len() implies (#[trigger] s[j]).total_half_scoops
        == day_half_scoops(fs.take(i + 1), s[j].date@) by {
        lemma_day_half_scoops_step(fs, i, s[j].date@);
        if j < p {
            assert(s[j] == days[j]);
        } else if j > p {
            assert(s[j] == days[j - 1]);
        }
    }
    assert forall|j: int| 0 <= j < s.len() implies (#[trigger] s[j]).treat_count == 0 by {
        if j < p {
            assert(s[j] == days[j]);
        } else if j > p {
            assert(s[j] == days[j - 1]);
        }
    }
    assert forall|j: int| 0 <= j < s.len() implies fed_on(fs, i + 1, (#[trigger] s[j]).date@) by {
        lemma_fed_on_grow(fs, i, s[j].date@);
        if j < p {
            assert(s[j] == days[j]);
            assert(fed_on(fs, i, days[j].date@));
        } else if j > p {
            assert(s[j] == days[j - 1]);
            assert(fed_on(fs, i, days[j - 1].date@));
        }
    }
    assert forall|d: Seq<char>| #[trigger] fed_on(fs, i + 1, d) implies has_day(s, d) by {
        lemma_fed_on_grow(fs, i, d);
        if fed_on(fs, i, d) {
            assert(has_day(days, d));
            let j = choose|j: int| 0 <= j < days.len() && #[trigger] days[j].date@ == d;
            if j < p {
                assert(s[j] == days[j]);
            } else {
                assert(s[j + 1] == days[j]);
            }
        } else {
            assert(s[p] == x);
        }
    }
    lemma_calendar_sums_insert(days, p, x);
    lemma_half_scoops_total_step(fs, i);
}


/// What the entries hold once all feedings and the first `i` treats are
/// counted in.
spec fn treat_state(
    days: Seq<CalendarDay>,
    fs: Seq<feeding::Model>,
    ts: Seq<treat::Model>,
    i: int,
) -> bool {
    &&& strictly_ascending(days)
    &&& forall|j: int|
        0 <= j < days.len() ==> (#[trigger] days[j]).total_half_scoops == day_half_scoops(
            fs,
            days[j].date@,
        )
    &&& forall|j: int|
        0 <= j < days.len() ==> (#[trigger] days[j]).treat_count == day_treats(
            ts.take(i),
            days[j].date@,
        )
    &&& forall|j: int|
        0 <= j < days.len() ==> fed_on(fs, fs.len() as int, (#[trigger] days[j]).date@)
            || treated_on(ts, i, days[j].date@)
    &&& forall|d: Seq<char>| #[trigger] fed_on(fs, fs.len() as int, d) ==> has_day(days, d)
    &&& forall|d: Seq<char>| #[trigger] treated_on(ts, i, d) ==> has_day(days, d)
    &&& calendar_half_scoops(days) == half_scoops_total(fs)
    &&& calendar_treats(days) == i
}

proof fn lemma_treated_on_grow(ts: Seq<treat::Model>, i: int, d: Seq<char>)
    requires
        0 <= i < ts.len(),
    ensures
        treated_on(ts, i + 1, d) <==> treated_on(ts, i, d) || date_key(ts[i].given_at@) == d,
{
    if treated_on(ts, i + 1, d) && !treated_on(ts, i, d) {
        let k = choose|k: int| 0 <= k < i + 1 && #[trigger] date_key(ts[k].given_at@) == d;
        assert(k == i);
    }
    if date_key(ts[i].given_at@) == d {
        assert(treated_on(ts, i + 1, d));
    }
    if treated_on(ts, i, d) {
        let k = choose|k: int| 0 <= k < i && #[trigger] date_key(ts[k].given_at@) == d;
        assert(treated_on(ts, i + 1, d));
    }
}

/// Once every feeding is counted in, the treats start from nothing.
proof fn lemma_feeds_done(days: Seq<CalendarDay>, fs: Seq<feeding::Model>, ts: Seq<treat::Model>)
    requires
        feed_state(days, fs, fs.len() as int),
    ensures
        treat_state(days, fs, ts, 0),
{
    assert(fs.take(fs.len() as int) =~= fs);
    assert(ts.take(0) =~= Seq::<treat::Model>::empty());
    assert forall|d: Seq<char>| #[trigger] treated_on(ts, 0, d) implies has_day(days, d) by {
        let k = choose|k: int| 0 <= k < 0 && #[trigger] date_key(ts[k].given_at@) == d;
    }
}

/// Counting treat `i` into the entry of its own day.
proof fn lemma_treat_into_existing(
    days: Seq<CalendarDay>,
    fs: Seq<feeding::Model>,
    ts: Seq<treat::Model>,
    i: int,
    p: int,
    x: CalendarDay,
)
    requires
        treat_state(days, fs, ts, i),
        0 <= i < ts.len(),
        0 <= p < days.len(),
        days[p].date@ == date_key(ts[i].given_at@),
        x.date@ == days[p].date@,
        x.total_half_scoops == days[p].total_half_scoops,
        x.treat_count == days[p].treat_count + 1,
    ensures
        treat_state(days.update(p, x), fs, ts, i + 1),
{
    let s = days.update(p, x);
    assert forall|a: int, b: int| 0 <= a < b < s.len() implies text_less(
        #[trigger] s[a].date@,
        #[trigger] s[b].date@,
    ) by {
        assert(text_less(days[a].date@, days[b].date@));
    }
    assert forall|j: int| 0 <= j < s.len() implies (#[trigger] s[j]).treat_count == day_treats(
        ts.take(i + 1),
        s[j].date@,
    ) by {
        lemma_day_treats_step(ts, i, s[j].date@);
        if j != p {
            lemma_ascending_distinct(days, j, p);
        }
    }
    assert forall|j: int| 0 <= j < s.len() implies fed_on(
        fs,
        fs.len() as int,
        (#[trigger] s[j]).date@,
    ) || treated_on(ts, i + 1, s[j].date@) by {
        lemma_treated_on_grow(ts, i, s[j].date@);
        assert(fed_on(fs, fs.len() as int, days[j].date@) || treated_on(ts, i, days[j].date@));
    }
    assert forall|d: Seq<char>| #[trigger] fed_on(fs, fs.len() as int, d) implies has_day(s, d) by {
        assert(has_day(days, d));
        let j = choose|j: int| 0 <= j < days.len() && #[trigger] days[j].date@ == d;
        assert(s[j].date@ == d);
    }
    assert forall|d: Seq<char>| #[trigger] treated_on(ts, i + 1, d) implies has_day(s, d) by {
        lemma_treated_on_grow(ts, i, d);
        if treated_on(ts, i, d) {
            assert(has_day(days, d));
            let j = choose|j: int| 0 <= j < days.len() && #[trigger] days[j].date@ == d;
            assert(s[j].date@ == d);
        } else {
            assert(s[p].date@ == d);
        }
    }
    lemma_calendar_sums_update(days, p, x);
}

/// Counting treat `i` in a new entry for its day, placed where it keeps the
/// dates ascending.
proof fn lemma_treat_into_new(
    days: Seq<CalendarDay>,
    fs: Seq<feeding::Model>,
    ts: Seq<treat::Model>,
    i: int,
    p: int,
    x: CalendarDay,
)
    requires
        treat_state(days, fs, ts, i),
        0 <= i < ts.len(),
        0 <= p <= days.len(),
        x.date@ == date_key(ts[i].given_at@),
        !has_day(days, x.date@),
        forall|q: int| 0 <= q < p ==> text_less(#[trigger] days[q].date@, x.date@),
        p < days.len() ==> !text_less(days[p].date@, x.date@),
        x.total_half_scoops == 0,
        x.treat_count == 1,
    ensures
        treat_state(days.insert(p, x), fs, ts, i + 1),
        day_half_scoops(fs, x.date@) == 0,
{
    let key = x.date@;
    let s = days.insert(p, x);
    if p < days.len() {
        lemma_text_less_total(days[p].date@, key);
    }
    lemma_insert_keeps_ascending(days, p, x);
    assert(!fed_on(fs, fs.len() as int, key));
    assert(!treated_on(ts, i, key));
    lemma_day_half_scoops_absent(fs, fs.len() as int, key);
    assert(fs.take(fs.len() as int) =~= fs);
    lemma_day_treats_absent(ts, i, key);
    assert forall|j: int| 0 <= j < s.len() implies (#[trigger] s[j]).total_half_scoops
        == day_half_scoops(fs, s[j].date@) by {
        if j < p {
            assert(s[j] == days[j]);
        } else if j > p {
            assert(s[j] == days[j - 1]);
        }
    }
    assert forall|j: int| 0 <= j < s.len() implies (#[trigger] s[j]).treat_count == day_treats(
        ts.take(i + 1),
        s[j].date@,
    ) by {
        lemma_day_treats_step(ts, i, s[j].date@);
        if j < p {
            assert(s[j] == days[j]);
        } else if j > p {
            assert(s[j] == days[j - 1]);
        }
    }
    assert forall|j: int| 0 <= j < s.len() implies fed_on(
        fs,
        fs.len() as int,
        (#[trigger] s[j]).date@,
    ) || treated_on(ts, i + 1, s[j].date@) by {
        lemma_treated_on_grow(ts, i, s[j].date@);
        if j < p {
            assert(s[j] == days[j]);
            assert(fed_on(fs, fs.len() as int, days[j].date@) || treated_on(ts, i, days[j].date@));
        } else if j > p {
            assert(s[j] == days[j - 1]);
            assert(fed_on(fs, fs.len() as int, days[j - 1].date@) || treated_on(
                ts,
                i,
                days[j - 1].date@,
            ));
        }
    }
    assert forall|d: Seq<char>| #[trigger] fed_on(fs, fs.len() as int, d) implies has_day(s, d) by {
        assert(has_day(days, d));
        let j = choose|j: int| 0 <= j < days.len() && #[trigger] days[j].date@ == d;
        if j < p {
            assert(s[j] == days[j]);
        } else {
            assert(s[j + 1] == days[j]);
        }
    }
    assert forall|d: Seq<char>| #[trigger] treated_on(ts, i + 1, d) implies has_day(s, d) by {
        lemma_treated_on_grow(ts, i, d);
        if treated_on(ts, i, d) {
            assert(has_day(days, d));
            let j = choose|j: int| 0 <= j < days.len() && #[trigger] days[j].date@ == d;
            if j < p {
                assert(s[j] == days[j]);
            } else {
                assert(s[j + 1] == days[j]);
            }
        } else {
            assert(s[p] == x);
        }
    }
    lemma_calendar_sums_insert(days, p, x);
}


/// `days` is the calendar of the feedings `fs` and treats `ts`: ascending
/// dates; each entry's half scoops and treats are that day's; a day has an
/// entry exactly when a feeding or treat falls on it, and a day without one
/// has nothing; the entries add up to all half scoops and all treats.
pub open spec fn is_calendar_of(
    days: Seq<CalendarDay>,
    fs: Seq<feeding::Model>,
    ts: Seq<treat::Model>,
) -> bool {
    &&& strictly_ascending(days)
    &&& forall|j: int|
        0 <= j < days.len() ==> (#[trigger] days[j]).total_half_scoops == day_half_scoops(
            fs,
            days[j].date@,
        ) && days[j].treat_count == day_treats(ts, days[j].date@)
    &&& forall|d: Seq<char>|
        has_day(days, d) <==> fed_on(fs, fs.len() as int, d) || treated_on(ts, ts.len() as int, d)
    &&& forall|d: Seq<char>|
        !has_day(days, d) ==> day_half_scoops(fs, d) == 0 && day_treats(ts, d) == 0
    &&& calendar_half_scoops(days) == half_scoops_total(fs)
    &&& calendar_treats(days) == ts.len()
}

/// The calendar of a set of feedings and treats: one entry per day on which
/// any falls (by the date part of its timestamp), with the half scoops fed
/// and the treats given that day, in ascending date order.
pub fn daily_totals(feedings: &Vec<feeding::Model>, treats: &Vec<treat::Model>) -> (days: Vec<
    CalendarDay,
>)
    requires
        day_sums_fit(feedings@),
    ensures
        is_calendar_of(days@, feedings@, treats@),
{
    let mut days: Vec<CalendarDay> = Vec::new();
    let nf = feedings.len();
    assert(feedings@.take(0) =~= Seq::<feeding::Model>::empty());
    assert forall|d: Seq<char>| #[trigger] fed_on(feedings@, 0, d) implies has_day(days@, d) by {
        let k = choose|k: int| 0 <= k < 0 && #[trigger] date_key(feedings@[k].fed_at@) == d;
    }
    let mut i: usize = 0;
    while i < nf
        invariant
            nf == feedings@.len(),
            i <= nf,
            day_sums_fit(feedings@),
            feed_state(days@, feedings@, i as int),
        decreases nf - i,
    {
        let key = date_part(feedings[i].fed_at.as_str());
        let amount = feedings[i].amount_half_scoops;
        let (p, found) = locate(&days, &key);
        proof {
            lemma_day_half_scoops_step(feedings@, i as int, key@);
            assert(i32::MIN <= day_half_scoops(feedings@.take(i + 1), key@) <= i32::MAX);
        }
        if found {
            let total = days[p].total_half_scoops + amount;
            let entry = CalendarDay { date: key, total_half_scoops: total, treat_count: 0 };
            proof {
                lemma_feed_into_existing(days@, feedings@, i as int, p as int, entry);
            }
            days.set(p, entry);
        } else {
            proof {
                lemma_day_half_scoops_absent(feedings@, i as int, key@);
            }
            let entry = CalendarDay { date: key, total_half_scoops: amount, treat_count: 0 };
            proof {
                lemma_feed_into_new(days@, feedings@, i as int, p as int, entry);
            }
            days.insert(p, entry);
        }
        i = i + 1;
    }
    proof {
        lemma_feeds_done(days@, feedings@, treats@);
    }
    let nt = treats.len();
    let mut i: usize = 0;
    while i < nt
        invariant
            nt == treats@.len(),
            i <= nt,
            treat_state(days@, feedings@, treats@, i as int),
        decreases nt - i,
    {
        let key = date_part(treats[i].given_at.as_str());
        let (p, found) = locate(&days, &key);
        if found {
            proof {
                lemma_day_treats_bound(treats@.take(i as int), key@);
            }
            let count = days[p].treat_count + 1;
            let entry = CalendarDay {
                date: key,
                total_half_scoops: days[p].total_half_scoops,
                treat_count: count,
            };
            proof {
                lemma_treat_into_existing(days@, feedings@, treats@, i as int, p as int, entry);
            }
            days.set(p, entry);
        } else {
            let entry = CalendarDay { date: key, total_half_scoops: 0, treat_count: 1 };
            proof {
                lemma_treat_into_new(days@, feedings@, treats@, i as int, p as int, entry);
            }
            days.insert(p, entry);
        }
        i = i + 1;
    }
    proof {
        assert(treats@.take(nt as int) =~= treats@);
        assert forall|d: Seq<char>| !has_day(days@, d) implies day_half_scoops(feedings@, d) == 0
            && day_treats(treats@, d) == 0 by {
            if fed_on(feedings@, nf as int, d) {
                assert(has_day(days@, d));
            }
            if treated_on(treats@, nt as int, d) {
                assert(has_day(days@, d));
            }
            lemma_day_half_scoops_absent(feedings@, nf as int, d);
            lemma_day_treats_absent(treats@, nt as int, d);
            assert(feedings@.take(nf as int) =~= feedings@);
        }
        assert forall|d: Seq<char>| has_day(days@, d) implies fed_on(
            feedings@,
            feedings@.len() as int,
            d,
        ) || treated_on(treats@, treats@.len() as int, d) by {
            let j = choose|j: int| 0 <= j < days@.len() && #[trigger] days@[j].date@ == d;
            assert(fed_on(feedings@, nf as int, days@[j].date@) || treated_on(
                treats@,
                nt as int,
                days@[j].date@,
            ));
        }
    }
    days
}


/// The feedings that fall on `day`, in their order.
pub open spec fn feedings_on(fs: Seq<feeding::Model>, day: Seq<char>) -> Seq<feeding::Model> {
    fs.filter(|m: feeding::Model| date_key(m.fed_at@) == day)
}

/// The treats that fall on `day`, in their order.
pub open spec fn treats_on(ts: Seq<treat::Model>, day: Seq<char>) -> Seq<treat::Model> {
    ts.filter(|t: treat::Model| date_key(t.given_at@) == day)
}

proof fn lemma_feedings_on_total(fs: Seq<feeding::Model>, day: Seq<char>)
    ensures
        half_scoops_total(feedings_on(fs, day)) == day_half_scoops(fs, day),
    decreases fs.len(),
{
    reveal(Seq::filter);
    if fs.len() > 0 {
        lemma_feedings_on_total(fs.drop_last(), day);
        let sub = feedings_on(fs.drop_last(), day);
        if date_key(fs.last().fed_at@) == day {
            assert(sub.push(fs.last()).drop_last() =~= sub);
        }
    }
}

proof fn lemma_treats_on_count(ts: Seq<treat::Model>, day: Seq<char>)
    ensures
        treats_on(ts, day).len() == day_treats(ts, day),
    decreases ts.len(),
{
    reveal(Seq::filter);
    if ts.len() > 0 {
        lemma_treats_on_count(ts.drop_last(), day);
    }
}

/// The day view and the calendar agree: the feedings that fall on a day add
/// up to the half scoops the calendar gives that day, and the treats that
/// fall on it are as many as the calendar counts.
pub proof fn lemma_day_view_matches_calendar(
    fs: Seq<feeding::Model>,
    ts: Seq<treat::Model>,
    day: Seq<char>,
)
    ensures
        half_scoops_total(feedings_on(fs, day)) == day_half_scoops(fs, day),
        treats_on(ts, day).len() == day_treats(ts, day),
{
    lemma_feedings_on_total(fs, day);
    lemma_treats_on_count(ts, day);
}


/// Two ascending sequences of entries with the same days have the same dates
/// at the same places.
pub proof fn lemma_ascending_days_unique(a: Seq<CalendarDay>, b: Seq<CalendarDay>)
    requires
        strictly_ascending(a),
        strictly_ascending(b),
        forall|d: Seq<char>| has_day(a, d) <==> has_day(b, d),
    ensures
        a.len() == b.len(),
        forall|i: int| 0 <= i < a.len() ==> (#[trigger] a[i]).date@ == b[i].date@,
    decreases a.len(),
{
    if a.len() == 0 || b.len() == 0 {
        if b.len() > 0 {
            assert(has_day(b, b[0].date@));
        }
        if a.len() > 0 {
            assert(has_day(a, a[0].date@));
        }
        return;
    }
    let a0 = a[0].date@;
    let b0 = b[0].date@;
    assert(has_day(a, a0));
    assert(has_day(b, b0));
    if a0 != b0 {
        let j = choose|j: int| 0 <= j < b.len() && #[trigger] b[j].date@ == a0;
        let k = choose|k: int| 0 <= k < a.len() && #[trigger] a[k].date@ == b0;
        assert(j != 0 && k != 0);
        assert(text_less(b0, b[j].date@));
        assert(text_less(a0, a[k].date@));
        lemma_text_less_asymmetric(a0, b0);
    }
    let ta = a.drop_first();
    let tb = b.drop_first();
    assert forall|a1: int, b1: int| 0 <= a1 < b1 < ta.len() implies text_less(
        #[trigger] ta[a1].date@,
        #[trigger] ta[b1].date@,
    ) by {
        assert(text_less(a[a1 + 1].date@, a[b1 + 1].date@));
    }
    assert forall|a1: int, b1: int| 0 <= a1 < b1 < tb.len() implies text_less(
        #[trigger] tb[a1].date@,
        #[trigger] tb[b1].date@,
    ) by {
        assert(text_less(b[a1 + 1].date@, b[b1 + 1].date@));
    }
    assert forall|d: Seq<char>| has_day(ta, d) <==> has_day(tb, d) by {
        if has_day(ta, d) {
            let i = choose|i: int| 0 <= i < ta.len() && #[trigger] ta[i].date@ == d;
            assert(a[i + 1].date@ == d);
            assert(has_day(a, d));
            lemma_ascending_distinct(a, 0, i + 1);
            let j = choose|j: int| 0 <= j < b.len() && #[trigger] b[j].date@ == d;
            assert(j != 0);
            assert(tb[j - 1].date@ == d);
        }
        if has_day(tb, d) {
            let i = choose|i: int| 0 <= i < tb.len() && #[trigger] tb[i].date@ == d;
            assert(b[i + 1].date@ == d);
            assert(has_day(b, d));
            lemma_ascending_distinct(b, 0, i + 1);
            let j = choose|j: int| 0 <= j < a.len() && #[trigger] a[j].date@ == d;
            assert(j != 0);
            assert(ta[j - 1].date@ == d);
        }
    }
    lemma_ascending_days_unique(ta, tb);
    assert forall|i: int| 0 <= i < a.len() implies (#[trigger] a[i]).date@ == b[i].date@ by {
        if i > 0 {
            assert(a[i] == ta[i - 1]);
            assert(b[i] == tb[i - 1]);
        }
    }
}

/// The calendar is determined by the per-day sums: two calendars of inputs
/// with the same days and the same per-day half scoops and treats list the
/// same dates with the same totals, place by place.
pub proof fn lemma_calendar_determined(
    v1: Seq<CalendarDay>,
    fs1: Seq<feeding::Model>,
    ts1: Seq<treat::Model>,
    v2: Seq<CalendarDay>,
    fs2: Seq<feeding::Model>,
    ts2: Seq<treat::Model>,
)
    requires
        is_calendar_of(v1, fs1, ts1),
        is_calendar_of(v2, fs2, ts2),
        forall|d: Seq<char>|
            #![trigger day_half_scoops(fs1, d)]
            day_half_scoops(fs1, d) == day_half_scoops(fs2, d) && day_treats(ts1, d) == day_treats(
                ts2,
                d,
            ) && (fed_on(fs1, fs1.len() as int, d) || treated_on(ts1, ts1.len() as int, d) <==> fed_on(
                fs2,
                fs2.len() as int,
                d,
            ) || treated_on(ts2, ts2.len() as int, d)),
    ensures
        v1.len() == v2.len(),
        forall|i: int|
            0 <= i < v1.len() ==> (#[trigger] v1[i]).date@ == v2[i].date@
                && v1[i].total_half_scoops == v2[i].total_half_scoops && v1[i].treat_count
                == v2[i].treat_count,
{
    assert forall|d: Seq<char>| has_day(v1, d) <==> has_day(v2, d) by {
        assert(day_half_scoops(fs1, d) == day_half_scoops(fs2, d));
    }
    lemma_ascending_days_unique(v1, v2);
    assert forall|i: int| 0 <= i < v1.len() implies (#[trigger] v1[i]).date@ == v2[i].date@
        && v1[i].total_half_scoops == v2[i].total_half_scoops && v1[i].treat_count
        == v2[i].treat_count by {
        assert(day_half_scoops(fs1, v1[i].date@) == day_half_scoops(fs2, v1[i].date@));
        assert(v2[i] == v2[i]);
    }
}


/// Each calendar entry reports exactly the feedings and treats that fall on
/// its date: its half scoops are the sum over the feedings of that day and
/// its treat count the number of that day's treats; the entries' dates rise.
pub proof fn lemma_calendar_entry_is_its_day(
    v: Seq<CalendarDay>,
    fs: Seq<feeding::Model>,
    ts: Seq<treat::Model>,
    i: int,
)
    requires
        is_calendar_of(v, fs, ts),
        0 <= i < v.len(),
    ensures
        v[i].total_half_scoops == half_scoops_total(feedings_on(fs, v[i].date@)),
        v[i].treat_count == treats_on(ts, v[i].date@).len(),
        feedings_on(fs, v[i].date@).len() > 0 || treats_on(ts, v[i].date@).len() > 0,
        i + 1 < v.len() ==> text_less(v[i].date@, v[i + 1].date@),
{
    let d = v[i].date@;
    lemma_day_view_matches_calendar(fs, ts, d);
    assert(has_day(v, d));
    if fed_on(fs, fs.len() as int, d) {
        let k = choose|k: int| 0 <= k < fs.len() && #[trigger] date_key(fs[k].fed_at@) == d;
        let pred = |m: feeding::Model| date_key(m.fed_at@) == d;
        fs.filter_lemma(pred);
        assert(fs.filter(pred).contains(fs[k]));
    } else {
        assert(treated_on(ts, ts.len() as int, d));
        let k = choose|k: int| 0 <= k < ts.len() && #[trigger] date_key(ts[k].given_at@) == d;
        let pred = |t: treat::Model| date_key(t.given_at@) == d;
        ts.filter_lemma(pred);
        assert(ts.filter(pred).contains(ts[k]));
    }
}

} // verus!
