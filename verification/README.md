# iguana

A block compressor and its stream format, with the behaviour of every function
stated in contracts and proved by Verus.

A block is parsed into literals and matches (`matcher`, `parse`), written as six
streams (`encoder`) and read back by replaying them (`structural`). Each stream can
be entropy coded with a range asymmetric numeral system: one state (`ans1`), one
state over nibbles (`nibble`), or 32 interleaved states (`ans32`), on the normalised
frequencies of `model`, the coder steps of `rans` and the frequency tables of
`table`. `block` is the interface for single blocks; `stream` holds the framed
format with its seek index, read and written in memory.

## What is proved

- Decoding undoes encoding: for each entropy coder, for blocks, and for streams,
  whatever the settings of the writer and however the content is cut into pieces.
- Decoding never panics: every input is decoded or answered with an error that the
  contract names.
- Encoding is pinned down byte for byte by the contracts, so that the output does
  not depend on how often an encoder was used before, on the number of threads, or
  on which of two variants of a function was called.
- Seeking and skipping arrive where reading would have arrived, in whatever order
  reads, skips and seeks follow each other.

The theorems are the public proof functions named `lemma_..` beside the functions
they speak of; `lemma_roundtrip` in a module is what the module is for.

Fields of the format have limits: a literal run or a match of about 16.5 million
bytes or more, or a distance of more than 24 bits, has no place in its field. A
block with such a parse is stored as it is, so that every block comes back. Blocks
have up to 2^31 - 1 bytes. A reader accepts frames of up to 256 MiB; the theorems on
streams speak of such frames.

## Layout

- `src/`: the verified library
- `tests/`: its tests
- `app/`: streams over `std::io`, work spread over threads, timing, files
