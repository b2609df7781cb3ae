# tab-engine

Bass guitar tablature engine: from transcribed notes to fingered tab and its text.

`src/` is the verified library:

- `tab` — tunings, fretboard positions of a pitch (`pitch_to_candidates`), tab layouts.
- `viterbi` — the fingering optimizer. Costs are integers in half-points; the
  optimizer's path is proved to be a fingering (every position sounds its note,
  slides keep their string when they can) and to cost no more than any other
  fingering.
- `transpose` — transposition with octave correction into the bass range (E1–G4).
- `sheet` — plain and optimized layouts, regeneration after transposition.
- `segment` — grouping per-frame pitch estimates into notes: maximal runs of
  one pitch, or the predominant pitch between two detected onsets; and the
  pitch-contour test that marks a note as a slide.
- `export` — ASCII tab (with `/` before a slide's fret number) and MusicXML text,
  specified character by character.
- `pipeline` — the decisions of the transcription pipeline and its sidecar protocol.
- `text` — decimal rendering.
- `time` — Unix seconds to a UTC calendar date and its ISO 8601 text.

Timing (onsets, durations, tempo) is floating point and stays in `app/`, which
also holds audio analysis (YIN pitch detection, spectral-flux onsets), the
SQLite store, the Python sidecar process and a command-line front end.
