//! Building blocks of a small ELF linker: the ELF data model, a reader and
//! a writer of ELF structures in either class and byte order, the
//! section-to-output configuration, and the linking steps that read input
//! objects, merge their sections and group them into segments.
pub mod section;
pub mod segment;
pub mod elf;
pub mod symbol;
pub mod bytes;
pub mod writer;
pub mod reader;
pub mod sorting;
pub mod link;
pub mod config;
