# phire

The integer and text logic of the phire rhythm-game engine, written in Verus and
proved against its contracts.

- `src/` is the verified library:
  - `text` — characters of strings, `str::lines`/`split_whitespace` splitting,
    integer and floating-point literal recognition;
  - `pec`, `pec_parse` — PEC charts: counting events ahead of the parse, and
    reading every line into a command or a located error;
  - `judge` — the judgement tally (counts, combos, offsets), judging order of
    notes, replay hit sounds, the per-frame hit-sound budget;
  - `health` — combo-heal counting and how judgements heal or damage;
  - `input` — the in-place text box (cursor, selection, line moves) and key counts;
  - `numerals` — Roman numerals and Chinese numerals;
  - `line`, `ring`, `render`, `avc`, `game`, `character` — animated-texture
    frames, judge-line note groups, the latency ring buffer, render settings and
    audio framing for video output, best records, chart formats and character forms.
- `tests/` runs the library on concrete values.
- `app/` is a small command-line program around the library: file reading, the
  floating-point parts (health, scores, chart times), JSON forms of the data, and
  keyboard input through macroquad.
