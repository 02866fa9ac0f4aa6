use dog_tracker::calendar::CalendarDay;
use dog_tracker::feeding;
use dog_tracker::handlers::{
    build_day_response, cache_control_for, check_new_feeding, check_new_treat, daily_totals,
    day_bounds, delete_outcome, frontend_path, frontend_reply, month_range, to_response,
    to_treat_response, validate_timestamp, AddFeedingRequest, AddTreatRequest, ApiError,
};
use dog_tracker::treat;

fn feeding_request(amount: i32, fed_at: &str) -> AddFeedingRequest {
    AddFeedingRequest { amount_half_scoops: amount, fed_at: fed_at.to_string(), edited: false }
}

fn treat_request(name: &str, given_at: &str) -> AddTreatRequest {
    AddTreatRequest { name: name.to_string(), given_at: given_at.to_string(), edited: false }
}

fn stored_feeding(id: i32, amount: i32, fed_at: &str) -> feeding::Model {
    feeding::Model { id, amount_half_scoops: amount, fed_at: fed_at.to_string(), edited: false }
}

fn stored_treat(id: i32, name: &str, given_at: &str) -> treat::Model {
    treat::Model { id, name: name.to_string(), given_at: given_at.to_string(), edited: false }
}

/// Stands in for the database query: the rows whose timestamp lies in the
/// window, in timestamp order.
fn feedings_in(rows: &[feeding::Model], window: &(String, String)) -> Vec<feeding::Model> {
    let mut out: Vec<feeding::Model> = rows
        .iter()
        .filter(|m| m.fed_at >= window.0 && m.fed_at < window.1)
        .map(|m| stored_feeding(m.id, m.amount_half_scoops, &m.fed_at))
        .collect();
    out.sort_by(|a, b| a.fed_at.cmp(&b.fed_at));
    out
}

fn treats_in(rows: &[treat::Model], window: &(String, String)) -> Vec<treat::Model> {
    let mut out: Vec<treat::Model> = rows
        .iter()
        .filter(|t| t.given_at >= window.0 && t.given_at < window.1)
        .map(|t| stored_treat(t.id, &t.name, &t.given_at))
        .collect();
    out.sort_by(|a, b| a.given_at.cmp(&b.given_at));
    out
}

fn scoops(half_scoops: i32) -> f64 {
    half_scoops as f64 / 2.0
}

// ── New feedings ────────────────────────────────────────────────

#[test]
fn add_feeding_one_half_scoop() {
    let new = check_new_feeding(feeding_request(1, "2024-05-15 08:30:00")).unwrap();
    assert_eq!(new.amount_half_scoops, 1);
    assert_eq!(new.fed_at, "2024-05-15 08:30:00");
    assert_eq!(new.edited, false);
    let body = to_response(&stored_feeding(1, new.amount_half_scoops, &new.fed_at));
    assert_eq!(body.amount_half_scoops, 1);
    assert_eq!(scoops(body.amount_half_scoops), 0.5);
    assert_eq!(body.fed_at, "2024-05-15 08:30:00");
    assert_eq!(body.edited, false);
}

#[test]
fn add_feeding_full_scoop_with_edited_flag() {
    let req = AddFeedingRequest {
        amount_half_scoops: 2,
        fed_at: "2020-01-15 12:00:00".to_string(),
        edited: true,
    };
    let new = check_new_feeding(req).unwrap();
    assert_eq!(scoops(new.amount_half_scoops), 1.0);
    assert_eq!(new.edited, true);
}

#[test]
fn add_feeding_rejects_invalid_amount() {
    for bad in [0, 3, -1, 10] {
        let r = check_new_feeding(feeding_request(bad, "2024-05-15 08:30:00"));
        assert!(matches!(r, Err(ApiError::BadRequest)), "amount {bad} should fail");
    }
}

#[test]
fn add_feeding_rejects_invalid_timestamp_format() {
    for bad in ["2024-05-15", "not-a-date", "2024-05-15T08:30:00", ""] {
        let r = check_new_feeding(feeding_request(1, bad));
        assert!(matches!(r, Err(ApiError::BadRequest)), "fed_at {bad:?} should fail");
    }
}

// ── Deleting ────────────────────────────────────────────────────

#[test]
fn delete_feeding_round_trip() {
    assert_eq!(delete_outcome(1), Ok(()));
    let window = day_bounds("2024-05-15").unwrap();
    let day = build_day_response("2024-05-15", &feedings_in(&[], &window), &Vec::new());
    assert_eq!(scoops(day.total_half_scoops), 0.0);
}

#[test]
fn delete_feeding_missing_returns_404() {
    assert_eq!(delete_outcome(0), Err(ApiError::NotFound));
}

#[test]
fn delete_treat_round_trip() {
    assert_eq!(delete_outcome(1), Ok(()));
}

#[test]
fn delete_treat_missing_returns_404() {
    assert_eq!(delete_outcome(0), Err(ApiError::NotFound));
}

// ── New treats ──────────────────────────────────────────────────

#[test]
fn add_treat_basic() {
    let new = check_new_treat(treat_request("Bone", "2024-05-15 09:00:00")).unwrap();
    let body = to_treat_response(&stored_treat(7, &new.name, &new.given_at));
    assert_eq!(body.name, "Bone");
    assert_eq!(body.given_at, "2024-05-15 09:00:00");
    assert_eq!(body.edited, false);
    assert_eq!(body.id, 7);
}

#[test]
fn add_treat_trims_name() {
    let new = check_new_treat(treat_request("  Pup Cup  ", "2024-05-15 09:00:00")).unwrap();
    assert_eq!(new.name, "Pup Cup");
}

#[test]
fn add_treat_empty_name_rejected() {
    for name in ["", "   ", "\t\n"] {
        let r = check_new_treat(treat_request(name, "2024-05-15 09:00:00"));
        assert!(matches!(r, Err(ApiError::BadRequest)), "name {name:?} should fail");
    }
}

#[test]
fn add_treat_with_edited_flag() {
    let req = AddTreatRequest {
        name: "Scraps".to_string(),
        given_at: "2021-06-01 12:00:00".to_string(),
        edited: true,
    };
    let new = check_new_treat(req).unwrap();
    assert_eq!(new.edited, true);
    assert_eq!(new.given_at, "2021-06-01 12:00:00");
}

#[test]
fn add_treat_rejects_invalid_timestamp() {
    let r = check_new_treat(treat_request("Bone", "not-a-timestamp"));
    assert!(matches!(r, Err(ApiError::BadRequest)));
}

// ── One day ─────────────────────────────────────────────────────

#[test]
fn get_day_returns_only_that_days_entries() {
    let feedings = [
        stored_feeding(1, 2, "2022-03-10 08:00:00"),
        stored_feeding(2, 1, "2022-03-10 18:00:00"),
        stored_feeding(3, 2, "2022-03-11 08:00:00"),
    ];
    let treats = [stored_treat(1, "Bone", "2022-03-10 09:00:00")];
    let window = day_bounds("2022-03-10").unwrap();
    assert_eq!(window.0, "2022-03-10 00:00:00");
    assert_eq!(window.1, "2022-03-11 00:00:00");
    let day = build_day_response(
        "2022-03-10",
        &feedings_in(&feedings, &window),
        &treats_in(&treats, &window),
    );
    assert_eq!(day.date, "2022-03-10");
    assert_eq!(scoops(day.total_half_scoops), 1.5);
    assert_eq!(day.feedings.len(), 2);
    assert_eq!(day.treats.len(), 1);
}

#[test]
fn get_day_empty_returns_zeros() {
    let window = day_bounds("2022-03-10").unwrap();
    let day = build_day_response("2022-03-10", &feedings_in(&[], &window), &treats_in(&[], &window));
    assert_eq!(scoops(day.total_half_scoops), 0.0);
    assert_eq!(day.feedings.len(), 0);
    assert_eq!(day.treats.len(), 0);
}

#[test]
fn get_day_invalid_date_format() {
    assert_eq!(day_bounds("2022-99-99"), Err(ApiError::BadRequest));
}

// ── Calendar ────────────────────────────────────────────────────

#[test]
fn calendar_aggregates_feedings_and_treats() {
    let feedings = [
        stored_feeding(1, 2, "2022-05-01 08:00:00"),
        stored_feeding(2, 1, "2022-05-01 18:00:00"),
        stored_feeding(3, 2, "2022-05-15 08:00:00"),
        stored_feeding(4, 2, "2022-06-02 08:00:00"),
    ];
    let treats = [
        stored_treat(1, "Bone", "2022-05-01 09:00:00"),
        stored_treat(2, "Bone", "2022-05-01 14:00:00"),
    ];
    let window = month_range(2022, 5).unwrap();
    let days: Vec<CalendarDay> =
        daily_totals(&feedings_in(&feedings, &window), &treats_in(&treats, &window));
    assert_eq!(days.len(), 2);
    assert_eq!(days[0].date, "2022-05-01");
    assert_eq!(scoops(days[0].total_half_scoops), 1.5);
    assert_eq!(days[0].treat_count, 2);
    assert_eq!(days[1].date, "2022-05-15");
    assert_eq!(scoops(days[1].total_half_scoops), 1.0);
    assert_eq!(days[1].treat_count, 0);
}

#[test]
fn calendar_handles_december_year_boundary() {
    let feedings = [stored_feeding(1, 2, "2022-12-31 08:00:00")];
    let window = month_range(2022, 12).unwrap();
    assert_eq!(window.0, "2022-12-01 00:00:00");
    assert_eq!(window.1, "2023-01-01 00:00:00");
    let days = daily_totals(&feedings_in(&feedings, &window), &Vec::new());
    assert_eq!(days.len(), 1);
    assert_eq!(days[0].date, "2022-12-31");
}

#[test]
fn calendar_invalid_month_rejected() {
    assert_eq!(month_range(2022, 13), Err(ApiError::BadRequest));
}

#[test]
fn calendar_empty_month_returns_empty_list() {
    let window = month_range(2000, 1).unwrap();
    let days = daily_totals(&feedings_in(&[], &window), &treats_in(&[], &window));
    assert_eq!(days.len(), 0);
}

// ── Front end ───────────────────────────────────────────────────

#[test]
fn unknown_path_falls_back_to_index() {
    let path = frontend_path("/some/unknown/path");
    let file = frontend_reply(&path, None, Some(b"<html></html>".to_vec())).unwrap();
    assert_eq!(file.content_type, "text/html");
    assert_eq!(file.cache_control, "no-cache");
    assert_eq!(file.body, b"<html></html>".to_vec());
}
