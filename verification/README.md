# tachikaze

Cutting commercials out of recorded mp4 files without encoding them again, as a library whose
logic is verified with [Verus](https://github.com/verus-lang/verus).

## What is where

| Place | What it holds |
|---|---|
| `src/mp4io/` | sample tables, display and decode order, and the plan of an output file |
| `src/plan.rs`, `src/segmap.rs` | moving cut points to key frames, and where kept segments end up |
| `src/report/` | what a cut keeps, and sections that may be missed commercials |
| `src/prepare.rs` | what has to be removed from an input before it can be cut |
| `src/logo/` | logo files, finding where a logo is, and the frames that show it |
| `src/order.rs`, `src/trim.rs`, `src/dtvi.rs`, `src/jls.rs`, `src/cli.rs` | the types they share |
| `app/` | the program: files, ffmpeg, JSON, and what is computed in floating point |
| `tests/` | tests of the library |

## What is proved

Every function in `src/` has a contract that says what it returns for every input it accepts,
and no verified function panics. Beyond that, public proof functions state what holds of several
functions together. Some of them:

- `mp4io::written::written_file_reads_back`: reading a written file gives one track for each keep
  list that is not empty, with the samples that the list names and their bytes. What another crate
  makes of the movie box is any bytes here, and the movie is one with the tables of the plan.
- `mp4io::lossless::kept_samples_are_bit_identical`: each kept sample stands in the output with
  the bytes it has in the input.
- `mp4io::lossless::rewritten_tables_read_back`: the tables of the output give back the kept
  samples, at their new places.
- `mp4io::order_map::display_order_is_one_to_one`: display order and decode order belong to each
  other one to one.
- `logo::lgd_write::written_logo_reads_back`: a logo that is written reads back as it was.
- `logo::touched::written_intervals_read_back`: the text of the intervals that show a logo reads
  back as the frames around their ends.

Two calls are trusted: `mp4_atom::Ftyp::encode` (`mp4io::write::encode_ftyp`) and
`String::from_utf8_lossy` (`logo::lgd::decode_lossy`).

Floating-point numbers do not appear in the library. Where their order matters they are given as
integers that are ordered in the same way.
