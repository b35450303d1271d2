# kymenu

A minimal dmenu-style launcher for wlroots compositors, drawn as a
layer-shell overlay bar. Items come from standard input (one per line, or
as JSON), or from the programs on `PATH`; the typed text filters and ranks
them, and the chosen item is printed, printed as JSON, or run.

The crate is a Verus project:

- `src/` is the verified library: colour parsing, formatting and blending,
  the filtered and ranked item list with its selection, the keys and the
  effect of each, key repeat timing, splitting piped text into items and
  `PATH` into directories, the bar layout and how much of the typed text
  fits, output and pool geometry, and the record of compositor globals. Calls into the standard library whose behaviour the
  proofs rely on go through small trusted wrappers in `src/text.rs`, and the
  one call into `xkeysym` (`KeyCode::new`) through one in `src/repeat.rs`;
  each states the contract it is believed to meet.
- `app/` is the program around it: command line, Wayland connection and
  event handlers, shared memory, keyboard state, fonts and drawing, and
  carrying out the end of the menu (printing, running a program).
- `tests/` exercises the library on concrete values.
