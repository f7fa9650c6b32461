# tg

Keeps Telegram forum topics in step with local Markdown files: every topic of the
configured groups has a file, every message in it ends in a tag with its id, and
edits of a file are pushed back.

- `src/` is the library: reading and writing topic files, finding out what changed,
  planning what to ask of Telegram, and settling what came of it. All of it is
  verified with Verus. Functions have exact contracts over texts as sequences of
  characters; the promises that span functions are the public proof functions whose
  names start with `law_`.
- `tests/` runs the library on concrete values.
- `app/` is the program: command line, settings, files, network and the clients of
  Telegram.

What the library takes on trust stands in four files. `src/unicode.rs` has the
character classes of `std` and `regex`, `src/calendar.rs` has dates and times from
`jiff` and `chrono`, `src/errors.rs` has the errors of `serde_json`, and
`src/text.rs` has one function of `std`.
