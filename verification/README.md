# autosub

A verified library for making video subtitles: reading and writing SRT,
building ASS styles and band subtitles, splitting a script into cue texts,
aligning cue texts to recognised word timings, applying correction rules, and
planning the media steps of a job. Every function in `src/` is verified by
Verus against its contract; the few that only report what is on disk or in
the environment (such as `model_exists`) state nothing of their result.
Times are integer milliseconds, and numbers are read as `str::parse::<f64>`
reads them, then held exactly (style numbers to millionths, offsets to
milliseconds).

Layout:

- `src/text.rs`, `src/num.rs`, `src/float.rs`: character, decimal and number
  reading models shared by the rest.
- `src/srt.rs`, `src/srt_laws.rs`: SRT timestamps, parsing, writing, shifting;
  the round-trip laws.
- `src/json.rs`: JSON documents as plain values, read with `serde_json`.
- `src/align.rs`, `src/matching.rs`: the recogniser's word timings from its
  JSON output, cue text splitting, matching blocks, interpolation and
  alignment.
- `src/ass.rs`, `src/band.rs`, `src/unicode.rs`: ASS colours, times, force
  styles, text widths, wrapping and the band subtitle file.
- `src/corrections.rs`: correction rules and their application.
- `src/pipeline.rs`, `src/ffmpeg.rs`, `src/whisper.rs`, `src/setup.rs`,
  `src/tools.rs`, `src/commands.rs`: job planning, paths and tool output parsing.
- `app/`: the command-line program that performs the I/O and runs the plans.
- `tests/`: tests on concrete values.
