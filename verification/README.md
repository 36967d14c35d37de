# logs

Log files made of self-describing blocks, a queue of such files that name
the file they follow, and the small text parsers that configure them, with
their behaviour stated in contracts and proved.

- `src/parse` — parsers of digits, numbers, keywords, durations, templates
  (`$name`, `${code}`) and wildcard patterns (`*`, `?`), and combinators.
- `src/bbuff` — byte buffers: a stream over bytes, and flat buffers read and
  written at absolute positions.
- `src/logfile` — blocks (head, data, tail marker, back references) and the
  log file built of them: appending, reading, walking back and forth.
- `src/logqueue` — identities of log files, the check and ordering of a
  queue of files, the queue itself with its navigation, path templates and
  the decisions of making a new file.
- `src/logfile/stored.rs` — what a log's bytes hold when the log wrote them:
  its blocks one after another, each read back as written.
- `src/range`, `src/fs`, `src/perf`, `src/tracks`, `src/lookup` — ranges of
  values and walks over them, walks over directory trees, counters, timings
  of sections of code.
- `app` — what touches the disk, the clock and the environment.
