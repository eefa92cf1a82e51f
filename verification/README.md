# audio-decomposer

Take a recording apart into the pieces it is made of, and put it back together
without losing a single sample. The library holds the exact half of the tool and
proves what it promises with [Verus](https://github.com/verus-lang/verus).

## Layout

| Path                | What it holds                                                        |
| ------------------- | -------------------------------------------------------------------- |
| `src/audio`         | Buffers and their grids; WAV, AIFF and FLAC; floats as bit patterns  |
| `src/associative`   | The doublet network, Links Notation, the manifest, the native store  |
| `src/decompose`     | The model of a decomposition, events, the pursuit, notes             |
| `src/dsp`           | Names, sizes and orders of the signal analysis                       |
| `src/archive.rs`    | What an archive directory holds and whether its parts fit together   |
| `src/cli.rs`        | What follows from a command line                                     |
| `src/report.rs`     | What the commands print, and the lists they are given                |
| `app/`              | The program: files, arguments, and everything that is floating point |
| `tests/`            | Tests of the library as a caller sees it                             |

## What is proved

- A WAV, AIFF or FLAC file that was written reads back as the audio it was
  written from.
- A FLAC stream whose digest or whose frame header is not what it should be is
  refused; a subframe is never larger than the samples in it, and residuals are
  coded with the cheapest parameter there is.
- The residual restores the recording, however well or badly the bank explains
  it, and the stems sum back to it. Every placement names a sample that stands in
  the bank at its own number.
- An archive reads back as the decomposition it was written from: the same names,
  placements and notes, and every buffer, integer or float, in its own format. One
  that its format cannot hold is stored in the narrowest that can, sample for
  sample. Peaks are measured anew, and which text a number of the manifest is
  spelled in is up to the program: there both are floating point.
- A manifest survives its way through Links Notation and through the network;
  identical parts are stored once.
- A network that is mirrored into the native store in memory comes back link for
  link.
- Events tile the timeline, before and after their boundaries move.
- No two parts of an archive share a file, and none lies outside it.

The outside crates are `doublets` and `links-notation`; the few functions of them
that the library calls are stated in `src/associative/native.rs` and
`src/associative/lino.rs`, each with what is relied on.
