# wavz

An audio visualiser: it reads PCM WAVE files (or the microphone), plays them, and
draws their spectrum as a scrolling spectrogram. The decisions and data handling
are a Verus library; the program around them is ordinary Rust.

## Layout

- `src/` — the verified library.
  - `parser.rs` — RIFF/WAVE header parsing, chunk skipping, PCM sample decoding,
    channel down-mixing (mean rounded toward zero) and the in-memory reader with
    its error types; laws on round-trips of encoded files.
  - `fft.rs` — row views over flat 2-D buffers and the 12-bit bit-reversal
    permutation used before the butterflies.
  - `graphics.rs`, `precomp_vis.rs` — placing spectra and images into a frame
    buffer (column layout, vertical bars, scrolling views).
  - `rgba.rs` — the pixel type.
  - `realtime.rs` — playback clock (`SongTime`), audio cursor, frame bounds and
    the spectrum cache (`FftMaker`), with laws on play/pause/seek.
  - `mic.rs` — the sliding window over microphone samples.
- `tests/` — tests of the library on concrete inputs.
- `app/` — the program: argument handling, file mapping, audio and window I/O, and
  the floating-point FFT and colouring, which call into the library.
