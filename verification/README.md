# pidnest

A process tree viewer for one Linux user, by name or UID, as a verified
library and a small command around it.

- `src/` holds the library, verified with Verus: `procfs` reads status files,
  `tree` arranges processes under their parents and searches and cuts the
  forest, `render` draws it, `user` finds the user to show, `cli` checks the
  options, composes one view and decides each step of the live view; `text`
  and `ordered` hold the character and collection helpers they share.
- `app/` is the `pidnest` command: option parsing, reading `/proc`, printing,
  and running the live view's steps with the clock, sleeps and Ctrl+C.
- `tests/` runs the library on concrete inputs.
