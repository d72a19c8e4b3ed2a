# Bit-Perfect Player

A music player that writes lossless audio straight to an ALSA `hw:` device: no
resampling, no mixing, no dither, no software volume. DSD goes out as
DSD-over-PCM.

- `src/` is the library, verified with Verus. Every function states in its
  contract what it returns or changes, and the `law_*` proof functions state what
  holds across functions.
- `tests/` runs the library on concrete values.
- `app/` is the program around it: the command line, the sound hardware, files,
  the database and the desktop window. It asks the library what to do and does it.

## The library

| module | what it decides |
| --- | --- |
| `format`, `convert`, `dop` | sample formats, packing samples and DSD into wire bytes |
| `decode`, `dsd`, `fadvise` | which decoded samples count, where DSD bytes lie, which pages to drop |
| `ring`, `sink`, `loopback` | the byte ring between threads, recovery from underruns, comparing a capture |
| `engine` | the decode thread and the audio thread: segments, seeking, pausing, positions |
| `cue`, `extract`, `scan`, `sheets` | CUE sheets, tags, keeping the library in step with a folder |
| `browse`, `search`, `model` | queries, the schema, fuzzy search, what tracks and albums are shown as |
| `queue`, `session`, `worker`, `lru` | the play queue, saved sessions and playlists, background work, the art cache |
| `labels`, `standby`, `devices` | texts and sizes of the window, standby, listing output devices |
| `text`, `paths`, `span`, `error` | characters, paths, times, errors |

What the library takes from other crates without proof is marked
`external_body` or `assume_specification`, and each such item says what it relies
on: the ring buffer of `rtrb`, the matcher of `nucleo`, the hash of `blake3`, and
a few functions of the standard library.
