# vocan

Batch conversion of voice-over takes: clean-up, loudness normalization and encoding through FFmpeg.

The library under `src/` holds every decision that a run takes, with its contract, verified by
Verus. The application under `app/` does what the library asks for: it runs processes, reads and
writes files, draws the window, and computes the transcendental functions, transforms and filters
that the effects need between two passes of the library.

| module | what it holds |
| --- | --- |
| `rounding`, `single`, `double`, `fixed` | IEEE-754 arithmetic on bit patterns, and how numbers are written |
| `text` | cutting text into words, lines and numbers |
| `types` | the choices that drive a conversion |
| `args`, `ffmpeg` | FFmpeg's command lines, and what its diagnostics say |
| `processing` | filter chains, the choice of a normalization, the stream of decoded samples |
| `pipeline` | the passes over one file, as a state machine |
| `audio_effects` | the passes of the expander, the spectral gate, the denoiser, the dereverb and the equalizer |
| `expander`, `spectral_gate` | two of these effects over a whole signal, for the functions that are handed in |
| `memory` | the memory budget |
| `paths`, `batch` | where outputs go, and which files of a folder are processed |
| `proc` | the registry of child processes, and scratch directories |
| `app`, `theme`, `ui` | the state of the window, and what it shows |

A number is held by the bits of its single-precision representation (`single::Single`), so the
arithmetic of the effects is exact down to the last bit; `app/convert.rs` converts.
