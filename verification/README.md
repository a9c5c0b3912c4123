# kelp

The core of a small ELF linker, written in Verus: every function of the
library carries a contract that Verus proves.

## Layout

- `src/section.rs`, `src/segment.rs`, `src/elf.rs`, `src/symbol.rs`: the ELF
  data model (section and program headers, the file header, symbols), with
  the numbers that stand for each enumerated value and the flag words.
- `src/bytes.rs`: unsigned integers as bytes in either byte order.
- `src/writer.rs`: `Writer`, which lays out ELF structures in a buffer as a
  cursor does. Each `write_*` method is specified by the exact bytes it
  writes (`ehdr_bytes`, `shdr_bytes`, `phdr_bytes`, `sym_bytes`).
- `src/reader.rs`: `parse`, which reads an ELF file back from its bytes,
  specified by `elf_at`; the `lemma_*_reads_back` laws show that what the
  writer lays out is read back unchanged.
- `src/config.rs`: `Config`, read from a YAML document (`Config::parse`,
  which requires a valid configuration, and `Config::try_parse`, which
  says why a document is none) that maps output
  section names to glob patterns of input section names. The patterns are
  compiled with the `regex` crate and the document is read with
  `serde_yml`; those calls are the trusted items of this module.
- `src/link.rs`: the linking steps: `process_input_file` (the sections an
  object contributes), `merge_sections` (input sections into output
  sections, as the configuration says; kept in an `indexmap::IndexMap`) and
  `alloc_segments` (output sections into segments by their flags), with the
  laws that relate them. `process_input_file` requires a file that can be
  linked; `try_process_input_file` says why a file cannot be.
  `alloc_segments` keeps its segments in a `Vec` of entries keyed by their
  flags rather than in a `std::collections::HashMap`: grouping takes
  `HashMap::entry` with `or_insert`, and handing the segments out takes
  `into_values`, and vstd gives neither a specification.
- `src/sorting.rs`: what it means for keyed entries to be sorted by key.
- `app/main.rs`: the `kelp` command, `kelp CONFIG INPUT...`, which reads
  the files and runs the steps.
- `tests/`: tests of the library on concrete values.
