# Subomatic

Fully-automatic subtitle synchronization: re-time an out-of-sync subtitle to a video or audio
track's speech, or to a reference subtitle. No manual anchor points.

The library in `src/` is written in Verus: every function states what it returns, and the
statement is proved.

## What is proved

- **Engine** (`align`, `recovery`): the offsets that are chosen are optimal. A single global
  shift is the best one on its grid, piecewise shifts are an assignment that no other is worth
  more than, and the frame-rate scan takes the best ratio. A subtitle that is late by one amount
  is put back exactly.
- **Formats** (`srt`, `vtt`, `microdvd`, `ass`): each parser is a function from text to a
  subtitle or to one exact error, and each writer a function from a subtitle to text. What is
  written reads back; only the timing changes.
- **Conversion** (`convert`): which markup is kept, and what flattened text displays as.
- **Audio** (`vad`, `wav`): from speech frames to spans, and from the bytes of a WAV file to its
  samples.
- **Service** (`opensubtitles`, `fetch`): the requests to the subtitle service, what its replies
  mean, and the order in which a subtitle is fetched.

The outside functions that are relied on are declared in `chars`: `String::push`, and the debug
formatting of a string.

## Layout

- `src/`: the library.
- `tests/`: its tests.
- `app/`: the command line, the web page and the desktop window around it: files, network, audio
  decoding, and whatever counts in floating point (frame rates, energies, resampling).
