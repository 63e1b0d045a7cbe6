# vgm_core

A verified parser and sequencer for VGM register logs (versions 1.50 to 1.71),
the format in which chiptune players store what a game wrote to its sound
chips.

| Module | Content |
|---|---|
| `header` | the file header: offsets, clocks, flags |
| `volume` | the chip volume table and the scale factors a file asks for |
| `reader` | one command in, one event out |
| `stream` | what holds of every command and of whole walks |
| `scan` | a dry run over a whole stream |
| `gd3` | the metadata tag |
| `gzip` | packed files (.vgz) and zlib streams |
| `bytes`, `event` | little-endian fields; chips, events and errors |

Every parsing function is total: a damaged file gives an error value. The
contracts say for every input which value or which error comes back, and where
the reader stands afterwards.

DEFLATE itself comes from `miniz_oxide`. Its two entry points are the only code
that is trusted and not proved; see `src/gzip.rs`.

`app/` is a small command line tool that scans files.
