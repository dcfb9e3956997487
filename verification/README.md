# davimci

A verified library for a keyboard-driven video editor, and the program around
it.

- `src/` is the library. Every function of it is proved against its contract:
  - `model`, `frames`: the timeline and decoded pictures.
  - `motion`, `analysis`: where the playhead goes, and what a search answers.
  - `cmd`: edits, their history, macros and project files.
  - `mlt`: the playback graph of a timeline, the edits that keep it up to date,
    exports, and the state machines of the decoding threads.
  - `present`: pacing pictures against sound, composing and overlays.
  - `tui`: the rows of the screen, and pictures in a terminal.
  - `pack`: plugins, their pins, and what fetching them takes.
- `tests/` runs the library from outside.
- `app/` performs what the library plans: files, threads, the terminal, the
  graphics card and the media framework.

The few functions of `std` and `serde_json` that the library calls without a
proof are marked `external_body` or `assume_specification`, each with what is
claimed of it.
