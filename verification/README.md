# eternal

An endless beat-level jukebox: it analyses an audio file, finds musically
similar beats, and keeps playback going forever by jumping between them.

## Layout

- `src/` is the verified library. Its functions are proved against their
  contracts, except three trusted wrappers in `cache` that feed values to the
  standard library's hasher.
  - `graph`: builds the beat graph from a table of distance order keys
    (nearest candidates, adaptive or fixed threshold, the longest backward
    escape, no branches past the last branch point).
  - `planner`: the structural side of the endless walk: which moves are open,
    the loop exit, and the use counts that weigh the draw.
  - `analysis`: analysis parameters and failures, the beat grid built from
    snapped onsets, the frames of each beat, and trimming of silent ends.
  - `slicing`: the sample window of a beat and the lengths of its edge fades.
  - `decoding`: what to do with each packet while a file is decoded.
  - `session`: transport commands and the session clock.
  - `remote`: what the desktop media controls are told.
  - `dashboard`: the queued, audible and finished beats, and the layout of
    the stitch line.
  - `simulation` and `report`: statistics of simulated walks and summaries of
    graphs.
  - `cache` and `cli`: the analysis cache location and command-line rules.
- `app/` is the terminal program around the library: decoding with
  Symphonia, floating-point signal analysis and feature distances, the
  weighted random draw, audio output, the dashboard, desktop media controls
  and the playback simulator.
- `tests/` exercises the library.
