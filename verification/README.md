# PeakMuncher

An offline waveshaping clipper with zone automation, built around a library
whose behaviour is stated in contracts and proved by Verus.

A file is divided into zones by split points. Each zone has its own clipper,
ceiling, gains, fades, DC correction and oversampling. The waveform shows the
processed sound with caps where something was cut; spectra, spectrograms and
stereo correlation help to find what needs work.

## Layout

- `src/` is the library. It holds the data, the rules and the algorithms, and
  every item of it is verified.
  - Numbers: `single`, `rounding`, `arith`, `scalar`, `double`, `wide`,
    `functions`. Samples, times and levels are IEEE 754 singles in the form of
    their bit patterns, and the arithmetic on them is stated over integers.
  - Sound files: `codecs`, `aiff`, `extended`, `pcm`, `bytes`, `audio_io`.
  - Zones and rendering: `zones`, `plan`, `dsp`, `curves`, `oversample`, `passband`, `render`,
    `preview`, `normalize`, `envelope`.
  - Analysis: `spectra`, `fft`, `structure`, `detect`, `correlation`,
    `timeline`, `gonio`.
  - The editor: `session`, `editor`, `effects`, `shelf`, `worker`, `jobs`, `panels`, `trim`,
    `transport`, `playback`, `viewport`.
  - The display: `waveform`, `canvas`, `columns`, `body`, `display`, `ruler`,
    `scale`, `line`, `heatmap`, `controls`, `labels`.
  - What is kept: `settings`, `keybindings`, `project`, `recent`, `text`.
- `tests/` runs the library on concrete values, many of them bit for bit
  against the processor's own arithmetic.
- `app/` is the program around the library: the window, dialogs, files, the
  sound device, the rendering thread, and what is stored as JSON.

## What the caller supplies

Three things are not computed by the library but handed to it as functions, and
its contracts hold whatever they give: the functions of the mathematical library
(`functions::Function`), Fourier transforms (blocks of samples to bins and back),
and arithmetic in double precision (`wide::Operation`).

## What is trusted

The codecs for WAV, FLAC and MP3 are outside crates. The functions that call
them stand in `src/codecs.rs` and are marked there; each says in its comment what
is taken on trust. So is, in `src/text.rs`, that `String::push` appends a
character. Everything else is proved.
