# petro_meg

A library for Petroglyph MEGA archive files (the archive format of Star Wars: Empire at War,
Universe at War, Guardians of Graxia, Grey Goo and other games), with the command line tool
`petro-meg` in `app/`.

The library is written in Verus: every function states what it does in its contract, and the
contracts are proved.

- `src/path.rs`: MEGA paths: validation, components, case-insensitive comparison and
  normalization.
- `src/reader.rs`: reading the metadata of V1, V2 and V3 MEGA files (with version guessing)
  and extracting, and decrypting, file contents.
- `src/writer.rs`: the builder: files kept in name CRC order, layout of the tables and data, and
  encoding of the archive, optionally encrypted (V3).
- `src/roundtrip.rs`: proofs that what the builder writes reads back, with the reader and
  with the zero-copy V1 parser, and that version guessing recognizes built files.
- `src/parser.rs`: a zero-copy parser for V1 archives.
- `src/mega_file.rs`: a V1 reader that groups files by name, names compared as paths.
- `src/crypto.rs`, `src/checksum.rs`, `src/encoding.rs`: AES-128-CBC sections (through the
  `aes` and `cbc` crates), CRC-32 (through `crc32fast`) and little-endian fields.
- `src/cli.rs`: the rules of the command line tool: key parsing, file selection by literal
  paths, globs (`globset`) or regular expressions (`regex`), and case conversion.
- `src/version.rs`: the MEGA file versions.
