use dog_tracker::calendar::daily_totals;
use dog_tracker::feeding;
use dog_tracker::handlers::{
    build_day_response, cache_control_for, check_new_treat, day_bounds, day_text, frontend_path,
    frontend_reply, month_range, validate_timestamp, AddTreatRequest, ApiError,
};
use dog_tracker::migration::schema_statements;
use dog_tracker::text::{begins_with, date_part, text_before, trim, trim_leading_slashes};
use dog_tracker::treat;

fn fed(amount: i32, at: &str) -> feeding::Model {
    feeding::Model { id: 0, amount_half_scoops: amount, fed_at: at.to_string(), edited: false }
}

fn given(at: &str) -> treat::Model {
    treat::Model { id: 0, name: "Bone".to_string(), given_at: at.to_string(), edited: false }
}

#[test]
fn date_part_takes_text_before_first_space() {
    assert_eq!(date_part("2024-05-15 08:30:00"), "2024-05-15");
    assert_eq!(date_part("2024-05-15"), "2024-05-15");
    assert_eq!(date_part(" 08:30"), "");
    assert_eq!(date_part(""), "");
}

#[test]
fn text_before_is_lexicographic() {
    assert!(text_before("2022-05-01", "2022-05-15"));
    assert!(!text_before("2022-05-15", "2022-05-01"));
    assert!(!text_before("2022-05-01", "2022-05-01"));
    assert!(text_before("2022", "2022-05"));
    assert!(!text_before("2022-05", "2022"));
    assert!(text_before("", "a"));
}

#[test]
fn trim_removes_unicode_white_space_at_both_ends() {
    assert_eq!(trim("  Pup Cup  "), "Pup Cup");
    assert_eq!(trim("\t\n"), "");
    assert_eq!(trim("\u{3000}Bone\u{a0}"), "Bone");
    assert_eq!(trim("a b"), "a b");
    assert_eq!(trim(""), "");
}

#[test]
fn leading_slashes_and_prefixes() {
    assert_eq!(trim_leading_slashes("///assets/app.js"), "assets/app.js");
    assert_eq!(trim_leading_slashes("a/b"), "a/b");
    assert!(begins_with("assets/app.js", "assets/"));
    assert!(!begins_with("asset", "assets/"));
}

#[test]
fn cache_control_depends_on_assets_prefix() {
    assert_eq!(cache_control_for("assets/index-3f2a.js"), "public, max-age=31536000, immutable");
    assert_eq!(cache_control_for("index.html"), "no-cache");
    assert_eq!(cache_control_for("/assets/x.js"), "no-cache");
}

#[test]
fn frontend_path_defaults_to_index() {
    assert_eq!(frontend_path("/"), "index.html");
    assert_eq!(frontend_path(""), "index.html");
    assert_eq!(frontend_path("/assets/app.js"), "assets/app.js");
}

#[test]
fn frontend_reply_serves_asset_with_type_and_cache() {
    let file = frontend_reply("assets/app.js", Some(vec![1, 2]), Some(vec![9])).unwrap();
    assert_eq!(file.content_type, "text/javascript");
    assert_eq!(file.cache_control, "public, max-age=31536000, immutable");
    assert_eq!(file.body, vec![1, 2]);
    let plain = frontend_reply("LICENSE", Some(vec![3]), None).unwrap();
    assert_eq!(plain.content_type, "application/octet-stream");
    assert_eq!(plain.cache_control, "no-cache");
}

#[test]
fn frontend_reply_without_files_is_not_found() {
    assert!(matches!(frontend_reply("x", None, None), Err(ApiError::NotFound)));
}

#[test]
fn timestamps_are_checked() {
    assert_eq!(validate_timestamp("2024-05-15 08:30:00"), Ok(()));
    assert_eq!(validate_timestamp("2024-02-30 08:30:00"), Err(ApiError::BadRequest));
    assert_eq!(validate_timestamp("2024-05-15 25:00:00"), Err(ApiError::BadRequest));
}

#[test]
fn day_bounds_cross_month_year_and_leap_day() {
    let w = day_bounds("2024-02-28").unwrap();
    assert_eq!(w.1, "2024-02-29 00:00:00");
    let w = day_bounds("2023-02-28").unwrap();
    assert_eq!(w.1, "2023-03-01 00:00:00");
    let w = day_bounds("2022-12-31").unwrap();
    assert_eq!(w.0, "2022-12-31 00:00:00");
    assert_eq!(w.1, "2023-01-01 00:00:00");
    assert_eq!(day_bounds("2023-02-29"), Err(ApiError::BadRequest));
}

#[test]
fn day_bounds_keeps_the_text_as_given_for_the_start() {
    let w = day_bounds("2024-5-7").unwrap();
    assert_eq!(w.0, "2024-5-7 00:00:00");
    assert_eq!(w.1, "2024-05-08 00:00:00");
}

#[test]
fn month_range_edges() {
    let w = month_range(2024, 2).unwrap();
    assert_eq!(w.0, "2024-02-01 00:00:00");
    assert_eq!(w.1, "2024-03-01 00:00:00");
    assert_eq!(month_range(2022, 0), Err(ApiError::BadRequest));
    assert_eq!(month_range(262142, 12), Err(ApiError::BadRequest));
    assert_eq!(month_range(300000, 1), Err(ApiError::BadRequest));
    let w = month_range(12345, 6).unwrap();
    assert_eq!(w.0, "+12345-06-01 00:00:00");
    let w = month_range(-4, 12).unwrap();
    assert_eq!(w.0, "-0004-12-01 00:00:00");
    assert_eq!(w.1, "-0003-01-01 00:00:00");
}

#[test]
fn calendar_totals_add_up_and_stay_sorted() {
    let feedings = vec![
        fed(2, "2022-05-09 08:00:00"),
        fed(1, "2022-05-02 08:00:00"),
        fed(2, "2022-05-09 19:00:00"),
        fed(1, "2022-05-05 07:00:00"),
    ];
    let treats = vec![given("2022-05-07 10:00:00"), given("2022-05-02 10:00:00")];
    let days = daily_totals(&feedings, &treats);
    let dates: Vec<&str> = days.iter().map(|d| d.date.as_str()).collect();
    assert_eq!(dates, vec!["2022-05-02", "2022-05-05", "2022-05-07", "2022-05-09"]);
    let totals: Vec<i32> = days.iter().map(|d| d.total_half_scoops).collect();
    assert_eq!(totals, vec![1, 1, 0, 4]);
    let counts: Vec<usize> = days.iter().map(|d| d.treat_count).collect();
    assert_eq!(counts, vec![1, 0, 1, 0]);
    assert_eq!(totals.iter().sum::<i32>(), 6);
    assert_eq!(counts.iter().sum::<usize>(), treats.len());
}

#[test]
fn day_view_matches_calendar_entry() {
    let feedings = vec![fed(2, "2022-05-09 08:00:00"), fed(1, "2022-05-09 20:00:00")];
    let day = build_day_response("2022-05-09", &feedings, &Vec::new());
    let days = daily_totals(&feedings, &Vec::new());
    assert_eq!(days.len(), 1);
    assert_eq!(day.total_half_scoops, days[0].total_half_scoops);
}

#[test]
fn schema_creates_both_tables_after_pragmas() {
    let s = schema_statements();
    assert_eq!(s.len(), 6);
    assert_eq!(s[0], "PRAGMA journal_mode=WAL");
    assert!(s[2].contains("CREATE TABLE IF NOT EXISTS feeding"));
    assert!(s[5].contains("idx_treat_given_at"));
}

#[test]
fn day_window_includes_its_midnight_and_excludes_the_next() {
    let w = day_bounds("2022-03-10").unwrap();
    let inside = |ts: &str| ts >= w.0.as_str() && ts < w.1.as_str();
    assert!(inside("2022-03-10 00:00:00"));
    assert!(inside("2022-03-10 23:59:59"));
    assert!(!inside("2022-03-11 00:00:00"));
    assert!(!inside("2022-03-09 23:59:59"));
}

#[test]
fn last_representable_day_has_no_window() {
    assert_eq!(day_bounds("+262142-12-31"), Err(ApiError::Internal));
    assert!(day_bounds("+262142-12-30").is_ok());
}

#[test]
fn day_text_writes_padded_dates() {
    assert_eq!(day_text(2024, 5, 7), Ok("2024-05-07".to_string()));
    assert_eq!(day_text(12, 1, 1), Ok("0012-01-01".to_string()));
    assert_eq!(day_text(2023, 2, 29), Err(ApiError::BadRequest));
}

#[test]
fn admitted_treat_name_is_its_own_trim() {
    let req = AddTreatRequest {
        name: " \u{2003}Pup Cup\t".to_string(),
        given_at: "2024-05-15 09:00:00".to_string(),
        edited: false,
    };
    let new = check_new_treat(req).unwrap();
    assert_eq!(new.name, "Pup Cup");
    assert_eq!(trim(&new.name), new.name);
}

#[test]
fn shaped_but_impossible_dates_are_refused() {
    assert_eq!(day_bounds("2022-99-99"), Err(ApiError::BadRequest));
    assert_eq!(day_bounds("2022-03-32"), Err(ApiError::BadRequest));
    assert_eq!(day_bounds("2022-02-29"), Err(ApiError::BadRequest));
}
