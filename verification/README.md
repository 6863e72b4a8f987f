# eventix

The calendar library of eventix, verified with Verus: reading and writing iCalendar lines,
properties and events; calendar dates and the time zones they are resolved in, from embedded
`VTIMEZONE` definitions or the IANA database of `chrono-tz`; moving and resizing events across
daylight saving time transitions; and the decisions of the web interface and of the state files
that do not need I/O.

- `src/parser` — folded lines (`LineReader`, `LineWriter`), properties and parse errors.
- `src/objects` — the civil calendar, dates, time zones, the compilation of embedded time zones
  (`observance`, `tzresolver`) and events.
- `src/comps`, `src/pages`, `src/api` — what the web interface decides: password forms, the
  monthly grid, the daylight saving time warning.
- `src/state` — the migration of the TOML state files, over a model of `toml_edit` documents by the paths of their tables, strings and integers.
- `src/locale` — Italian ordinals and date composition.
- `src/text` — strings: decimal numbers, white space, words.
- `app/` — file I/O, the serde forms of requests and the runtime message templates.
