# daily_poweroff

A daily poweroff scheduler for Linux, written in Verus. The library in
`src/` holds every rule of the program, each function with a contract that
Verus proves; `app/main.rs` is the program around it: command line, files,
the clock, `wall`, `systemctl` and the poweroff command.

## Layout

- `src/text.rs` — characters and strings: whitespace trimming, splitting,
  decimal integers as `str::parse` reads them, zero-padded numbers.
- `src/calendar.rs` — `YYYY-MM-DD` dates, day numbers of the Gregorian
  calendar, `add_days`, and the proof that adding days composes.
- `src/dateset.rs` — the canceled dates, a set of strings kept in order;
  laws of cancel and resume.
- `src/config.rs` — the settings and the parsers of their values.
- `src/configfile.rs` — reading and writing the configuration file, and the
  proof that what is written reads back as the same configuration.
- `src/schedule.rs` — the current time, the next poweroff date, warning
  thresholds.
- `src/daemon.rs` — one round of the daemon as a function from what it
  observes to what it does, with the laws that a poweroff and each warning
  go out at most once per date.
- `src/messages.rs` — messages, labels and the usage text in English and
  Chinese.
- `src/commands.rs` — arguments and effects of the commands.
- `tests/` — tests on concrete values.
