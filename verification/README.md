# SmartClip

A permanent video buffer with one audio track per application. The screen and the
sound of each application are recorded all the time into a ring of short segments;
on a shortcut, or on a spoken phrase, the last seconds are joined into a clip
without being encoded again. The tracks of a clip stay separate, so that their
balance can be changed afterwards.

## Layout

- `src/` is the library: what the program decides and computes, with contracts that
  Verus proves. It reads no clock, talks to no device and touches no file.
  - `clock`, `text`, `path`, `layout`: time, texts, file names, stream layouts;
  - `audio`, `slots`, `video`: which applications get a track, and what a capture
    does with what arrives;
  - `segment`, `concat`: segments, the bounded ring, and how segments are joined;
  - `recorder`: the loop of the engine, its health and its restarts;
  - `export`, `thumbnail`, `wav`, `library`: what is made of saved clips;
  - `voice`, `desktop`, `cli`: the phrase, the interface and the command line;
  - `endurance`, `meter`, `bench`: campaigns and measures.
- `tests/` runs the library on concrete values.
- `app/` is the program: files, JSON, floating-point samples, and, under
  `app/platform/`, all that talks to Windows.

## Trust

Two items are believed rather than proved, each with a comment that says what is
claimed: `Duration::from_nanos` in `src/clock.rs`, and the PNG encoder in
`src/thumbnail.rs`.
