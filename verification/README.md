# Spektra

The verified core of Spektra, a desktop audio spectrogram viewer.

`src/` is a Verus library:

- `pipeline` — framing a sample stream into FFT windows and the schedule
  (`Analyzer`) that decides which window to analyse next and when a column
  is complete; proofs that a run analyses every frame once, emits every
  column once and in order, and never adds to an emitted column.
- `grid` — the column-major grid of band values, reading and writing
  columns, and the row-major picture drawn from it.
- `canvas` — lines, outlines and colour bars on an `image::RgbaImage`.
- `export` — layout of the exported 1400 × 800 PNG, the scaled spectrogram
  and the spacing of axis labels.
- `audio`, `note`, `text` — the stream description, note names and the
  labels of the axes and selectors.

`app/` is the program around it: decoding with ffmpeg, the FFT, the colour
palette, glyph rendering and the egui window, all of which are floating
point, I/O or GUI.
