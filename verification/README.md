# qfocus

The records, counters and screens of a terminal focus tracker, written in Verus: every
function under `src/` carries a contract that Verus proves, and the properties the program
relies on across calls (a record line reads back as the session it was written from, the
order records arrive in does not matter, a running counter stays consistent through every
step, a strip of the day comes in time order, an archived row comes back as it was) are
stated and proved as `law_` proof functions beside the code they speak of.

## Layout

- `src/` — the verified library:
  - `id`, `span`, `session/` — identifiers, spans of work and breaks, sessions, their record
    lines and how corrections, removals and restorations resolve into what counts;
  - `timer`, `liveness` — the running counter and how far a counter left on disk reaches;
  - `store/` — the files of the data folder as text: paths, the running file, the month files,
    what was seen, and what emptying the trash takes;
  - `tree`, `document` — the catalogue of categories and focuses, the TOML file it is read
    from and written as, and the parsed document the `toml` crate makes of such a file;
  - `stats`, `calendar` — what the records add up to by the hour, the day, the category and the
    focus, and the calendar days they fall on;
  - `prefs`, `export`, `readouts` — preferences, CSV and JSON export, and the numbers the
    screens read out;
  - `today`, `screen`, `charts`, `records`, `record_form`, `settings`, `recover` — the state of
    each screen and what each message does to it.
- `tests/` — tests that run the library with the framework linked.
- `app/` — what stays outside the proofs: files and clocks, the framework's words, and the
  floating-point numbers that place rows among their siblings.
