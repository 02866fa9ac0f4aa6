# dog_tracker

A small web service for tracking a dog's meals (in half scoops) and treats.
The verified library in `src/` holds the service's rules, with Verus
contracts and proofs:

- `handlers` — request checks (feeding amounts, timestamps, trimmed treat
  names), the day and month windows of timestamps, the day view, deletion
  answers and the front-end file choice. Its laws: a day's window holds
  exactly that day's `YYYY-MM-DD HH:MM:SS` timestamps, proved for days of
  years 0..=9999 other than 9999-12-31 (whose window would end at a signed
  year); a month's window holds exactly that month's timestamps, proved for
  months whose next month lies in a year up to 9999; a month's calendar
  ignores rows outside its window; admitted rows keep the stored-row
  invariant;
- `calendar` — the per-day totals of a month, ascending by date, with their
  sums and their agreement with the day view;
- `dates` — calendar arithmetic and `YYYY-MM-DD` texts, and the calls into
  `chrono`;
- `text` — the text order, date parts, trimming and prefixes;
- `feeding`, `treat` — the stored rows; `migration` — the schema statements.

`app/` is the server around it: axum routes (including `GET /api/today`,
which reads the local date from the clock and serves it like `/api/day`), the sea-orm database, server-sent
events and the embedded front end, plus the JSON forms (with the amounts in
scoops as floating point).
