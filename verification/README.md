# argand

The logic of `argand`, a viewer for I/Q signal captures, as a library whose
behaviour is stated in `requires` / `ensures` contracts and proved with Verus.

- `src/` is the verified library: cascading-menu navigation, compute budgets
  and CPU masks, the recent-file list, view arithmetic and zoom keys, analysis
  settings and the settings form's focus and typing, which analysis replies
  are current, session bookkeeping, status descriptions, the numeric locale
  of the system, and numbers in a locale's writing. What ICU4X writes for
  a number is named, not stated: the contracts say which locale, grouping
  and text are handed to it and what is done with its answer.
- `tests/` holds the tests, run against the compiled library with the real
  outside crates.
- `app/` is the binary around it: the command line, the two files on disk,
  the system calls that pin threads to cores, the worker pool, the locale
  variables, and the threads that check recent files.
