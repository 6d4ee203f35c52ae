# uftwo

A verified library for the [UF2 file format](https://github.com/microsoft/uf2),
written in Verus, with a small command-line converter around it.

- `src/block.rs`: the 512-byte block, its byte layout, reading one from bytes;
  checksum and extension records.
- `src/file.rs`: `Uf2File`, a sequence of blocks: payload extraction, family
  ids, target addresses, serialisation.
- `src/reader.rs`: reading a file from bytes and checking block order.
- `src/writer.rs`: cutting a payload into blocks.
- `src/binary.rs`: laying out a flash image page by page, with MD5 checksums
  and page-size and version extensions.
- `src/convert.rs`: the computations of the converter (binary to UF2 and back).
- `app/main.rs`: the `uftwo convert` command: argument parsing and file I/O.

Each public function states its result in its `ensures`; the round trips
(block and file bytes, payload written and read back, binary converted to UF2
and back) and the block-order guarantees are proof functions next to the code
they are about.
