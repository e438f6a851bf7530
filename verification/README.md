# cpaste

The logic of the Cpaste clipboard manager, verified with Verus: smart-group
classification of clipboard texts, the history view (pages, search, session
entries, tags), the sequential-paste queue, group export to Markdown, and
the handling of stored settings.

- `src/` is the verified library. Public functions state in their contracts
  what they return or change. Where the wall clock takes part, the contract
  says what holds whatever the clock reads: `classify_untimed` classifies
  exactly, `classify` may instead report a timeout, and `now_ms` promises
  nothing of the reading. The `law_*` proof functions state properties that
  span calls (ordering of history pages, first-in first-out pasting,
  uniqueness of exported entries, the choice of a group).
- `tests/` runs the library on concrete values, with the real `regex` and
  `serde_json` behind the library's few trusted declarations.
- `app/` is the desktop side: application state, SQLite repositories and the
  commands of the front end. It hands plain values to the library and stores
  or reports what comes back.

Fractional quantities are integers inside the library, so every computation
on them is exact: rule weights and scores in thousandths, confidences in
hundred-thousandths. `app/` converts them to and from `f64` at its edges.
