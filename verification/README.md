# course_kudasai

Watches NTUST courses for free seats and reports them on the console, as a
system notification and to a Discord webhook.

- `src/` is the verified library:
  - `text.rs`: Unicode whitespace trimming, decimal rendering and `i32`
    parsing, each proved against its specification;
  - `json.rs`: a model of the JSON values the course service sends, how a
    student count is read from one, and how the current semester is read
    from the `semestersinfo` answer;
  - `course.rs`: a course, its free-seat test and report line, the course
    query, and the decision of what to do about a course;
  - `config.rs`: the configuration file's rules (course lists, defaults,
    the notification switch) on top of the `rust-ini` and `serde_json` crates.
- `app/main.rs` is the program: file and network I/O, notifications, the
  floating-point polling interval, and the polling loop.
- `tests/` runs the library on concrete values.
