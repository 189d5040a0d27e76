# ag_psd

Reading and writing of Photoshop documents (PSD and PSB), with every operation
specified and proved in Verus.

## What is here

- `src/reader.rs`, `src/writer.rs`: the cursor over a document and the growing
  buffer it is written to; numbers, texts and length-prefixed sections.
- `src/header.rs`, `src/palette.rs`, `src/resources.rs`, `src/mask.rs`,
  `src/info.rs`, `src/color.rs`, `src/pattern.rs`, `src/pattern_writer.rs`: the
  parts of a document.
- `src/packbits.rs`, `src/rle.rs`, `src/zlib.rs`, `src/codec.rs`,
  `src/samples.rs`, `src/matte.rs`, `src/pixels.rs`, `src/trim.rs`: samples and
  how they are compressed.
- `src/records.rs`, `src/decode.rs`, `src/layer_tree.rs`, `src/composite.rs`,
  `src/document.rs`, `src/lazy.rs`: from bytes to a document.
- `src/channels.rs`, `src/record_writer.rs`, `src/layer_writer.rs`,
  `src/recode.rs`, `src/document_writer.rs`: from a document to bytes.
- `src/*_laws.rs`, `src/roundtrip.rs`: what is written is what is read, from a
  single byte up to a whole document; what is read without being decoded is written
  as it was stored, or coded anew for the other format; whether pixels are kept as a
  canvas or as image data changes nothing else; and a memory limit makes reading fail
  or changes nothing.
- `app/`: floating point numbers and std's error traits around the library.

## How contracts are written

What an operation reads is a spec function from a reader state to a value and the
next state, or an error (`get_header`, `get_record`, `get_psd`). What an operation
writes is a spec function from a value to bytes (`header_bytes`, `record_bytes`).
Executable functions are proved equal to these, and the `law_` proof functions
relate the two sides.

Quantities that the format stores as scaled integers are kept as stored: an opacity
is a byte, a colour component a 16-bit sample. `app/` converts them.

ZIP compression is done by the `flate2` crate; `src/zlib.rs` holds the only
contracts about it.
