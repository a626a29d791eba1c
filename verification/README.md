# gssavegame

Reads and writes `.gssg` savegame archives: the marker `GSSG`, the uncompressed
payload size (u32 little-endian), then the zlib-compressed payload. The payload is
an entry count followed by one record per file: name length, name padded to the
next 4-byte boundary, data length, data padded up to a 4-byte boundary.

Layout:

- `src/` — the verified library (Verus).
  - `format.rs`: padding, the payload layout and its reader, as spec functions and
    the verified code that follows them.
  - `codec.rs`: `encode`, `decode`, `encode_dir`, over the payload and zlib.
  - `zlib.rs`: the calls into flate2, with their contracts.
  - `text.rs`: entry-name handling (lossy UTF-8, trailing NULs, path separators).
  - `sorting.rs`: stable ordering of entries by name.
  - `cli.rs`: command-line flags and the choice of job for each subcommand.
  - `laws.rs`: the round trip of an archive, alignment of the payload, and laws of
    the ordering and of flag reading.
- `tests/` — tests run against the compiled library.
- `app/` — the command-line tool: file-system access, messages, usage text.
