# mdf4_rs

Reading and writing ASAM MDF 4 measurement files, with CAN bus logging,
written in Verus: the block layouts, the in-memory writer, the raw CAN
logger, signal extraction, data block chains and the file index are
verified against their contracts.

## Layout

- `src/blocks/` — the MDF blocks (identification, header, data group,
  channel group, channel, conversion, text and metadata, source
  information, data and data list blocks): serialization, parsing and the
  round trips between them. Floating-point fields are held as IEEE-754 bit
  patterns.
- `src/writer/` — `MdfWriter`, which builds a file image in memory: blocks
  are appended at eight-byte boundaries and linked by patching link fields;
  channel groups keep a record layout, and records are encoded from
  `DecodedValue`s into data blocks.
- `src/can/` — CAN FD flags and length codes, raw signal extraction
  (Intel and Motorola byte order), the raw frame logger `RawCanLogger`
  (each flush appends the records of the buffered frames to the image), the
  logger of DBC-decoded signal values `DbcMdfLogger`, the detection of raw
  frame channel groups, reading raw frames back in time order, and
  capture statistics.
- `src/parsing/` — data groups as read from a file and the data blocks
  their chains reference.
- `src/index.rs` — `MdfIndex`: an index of a file built through a
  `ByteRangeReader`, lookups by name and the byte ranges that hold a
  channel's values.
- `src/float_bits.rs` — integers as binary64 bit patterns.
- `app/` — what needs the outside world: files, JSON index files (serde),
  `embedded-can` frames, reading DBC databases and decoding frames with
  them (`dbc-rs`), and physical values in floating point.
- `tests/` — tests of the library.
