//! Meal and treat tracking for a dog: the request rules, the day and month
//! windows, the calendar aggregation and the static-asset decisions of the
//! tracker's HTTP API, with their contracts.
pub mod calendar;
pub mod dates;
pub mod feeding;
pub mod handlers;
pub mod migration;
pub mod text;
pub mod treat;
