# Elastic Player

A command-line audio player for instrument practice: tempo and pitch adjustment, start and end
cropping, and looping, for audio files and for audio from YouTube.

```bash
elastic-player <path, query, or URL> <options>
```

## Layout

`src/` is a library in [Verus](https://github.com/verus-lang/verus). It holds what the player
decides and computes, with contracts that are proved:

- `controller`, `time`: tempo, pitch, and positions at tempo and at real time
- `elastic`, `never_stop`: the sample pipeline around a time stretcher, and the silence after it
- `input`, `session`: the key bindings and the run of the player
- `screen`, `layout`, `text`, `tempo_text`: what is shown, and where
- `timestamp`, `query`, `convert`: the command line, the source of the audio, its conversion
- `float_model`, `float_rounding`, `float_ops`, `digits`, `decimal_float`: floating-point numbers
  as bit patterns, with exact rounding
- `accuracy` and the modules ending in `_laws`: what holds of all of this together

Tempo, volume, seconds and samples are patterns of IEEE 754 numbers in the library, so that what
it says of them is exact.

`app/` is ordinary Rust around the library: audio output, the time stretcher, the terminal,
downloads, and the converter. `tests/` runs the library on concrete values and holds its
arithmetic against that of the machine.
