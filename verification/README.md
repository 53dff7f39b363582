# folor

Recursive `tail -f` with glob pattern matching, with its core verified by Verus.

- `src/` is the verified library: binary detection (`binary`), command-line
  validation and duration parsing (`config`), the sum of a duration text's
  spans (`duration`), glob matching and the verdict on
  directory entries (`discovery`), line splitting, the tail read plan and the
  follower's poll step (`reader`), output framing and style (`output`), the
  set of followed files and how a scan changes it (`supervisor`), watcher
  timing (`watcher`) and the signal flags (`signal`).
- `app/` is the program around it: argument parsing with clap, the directory
  walk, file reads, threads, signal handlers and terminal output.
- `tests/` exercises the library.
