//! A writer that lays out ELF structures in a byte buffer, in the class and
//! byte order it was made with. It behaves as a cursor over a growable
//! buffer: writes overwrite or extend the buffer at the current position,
//! and a position past the end is filled up with zero bytes first.
use vstd::prelude::*;
use crate::bytes::{encode_uint, le_bytes, lemma_le_bytes_len, lemma_uint_bytes_len, uint_bytes};
use crate::elf::{self, class_code, endianness_code, Class, Endianness};
use crate::section;
use crate::segment;
use crate::symbol::{bind_code, sym_type_code, Sym};

verus! {

broadcast use {lemma_uint_bytes_len, lemma_le_bytes_len};

/// The buffer after writing `bytes` at `pos` into `data`: the bytes at
/// `pos .. pos + bytes.len()` are replaced (or appended), bytes outside that
/// range stay, and a gap between the old end and `pos` reads as zero.
pub open spec fn cursor_write(data: Seq<u8>, pos: int, bytes: Seq<u8>) -> Seq<u8> {
    let end = pos + bytes.len();
    Seq::new(
        if end > data.len() { end as nat } else { data.len() },
        |i: int|
            if pos <= i < end {
                bytes[i - pos]
            } else if i < data.len() {
                data[i]
            } else {
                0u8
            },
    )
}

/// Two writes in a row, the second where the first ended, are one write of
/// both byte sequences.
pub proof fn lemma_cursor_write_twice(
    data: Seq<u8>,
    pos: int,
    a: Seq<u8>,
    next: int,
    b: Seq<u8>,
)
    requires
        0 <= pos,
        next == pos + a.len(),
    ensures
        cursor_write(cursor_write(data, pos, a), next, b) == cursor_write(
            data,
            pos,
            a + b,
        ),
{
    assert(cursor_write(cursor_write(data, pos, a), next, b) =~= cursor_write(data, pos, a + b));
}

/// A value of the machine word size of the class: 4 bytes of it in a 32-bit
/// file (the value truncated to 32 bits), 8 bytes in a 64-bit one.
pub open spec fn word_bytes(class: Class, e: Endianness, v: usize) -> Seq<u8> {
    match class {
        Class::Class32 => uint_bytes((v as u32) as int, 4, e),
        Class::Class64 => uint_bytes((v as u64) as int, 8, e),
    }
}

/// The bytes of a file header: `e_ident` (magic, class, byte order,
/// version 1, OS ABI, ABI version, seven bytes of padding), then
/// `e_type`, `e_machine`, `e_version` (1), `e_entry`, `e_phoff`, `e_shoff`,
/// `e_flags`, `e_ehsize`, `e_phentsize`, `e_phnum`, `e_shentsize`,
/// `e_shnum` and `e_shstrndx`.
pub open spec fn ehdr_bytes(class: Class, e: Endianness, h: elf::Header) -> Seq<u8> {
    seq![0x7fu8, 0x45u8, 0x4cu8, 0x46u8, class_code(class), endianness_code(e), 1u8, h.os_abi, h.abi_version]
        + zeros(7)
        + uint_bytes(elf::type_code(h.typ) as int, 2, e)
        + uint_bytes(h.machine as int, 2, e)
        + uint_bytes(1, 4, e)
        + word_bytes(class, e, h.entry)
        + word_bytes(class, e, h.phoff)
        + word_bytes(class, e, h.shoff)
        + uint_bytes(h.flags as int, 4, e)
        + uint_bytes(h.header_size as int, 2, e)
        + uint_bytes(h.phentsize as int, 2, e)
        + uint_bytes(h.phnum as int, 2, e)
        + uint_bytes(h.shentsize as int, 2, e)
        + uint_bytes(h.shnum as int, 2, e)
        + uint_bytes(h.shstrndx as int, 2, e)
}

/// The bytes of a section header. In a 32-bit file the size, alignment and
/// entry size are truncated to 32 bits; in a 64-bit file the flags are
/// widened to 64 bits.
pub open spec fn shdr_bytes(class: Class, e: Endianness, h: section::Header) -> Seq<u8> {
    match class {
        Class::Class32 => uint_bytes((h.name as u32) as int, 4, e)
            + uint_bytes(section::type_code(h.typ) as int, 4, e)
            + uint_bytes(h.flags.bits as int, 4, e)
            + word_bytes(class, e, h.addr as usize)
            + word_bytes(class, e, h.offset)
            + uint_bytes((h.size as u32) as int, 4, e)
            + uint_bytes(h.link as int, 4, e)
            + uint_bytes(h.info as int, 4, e)
            + uint_bytes((h.align as u32) as int, 4, e)
            + uint_bytes((h.entry_size as u32) as int, 4, e),
        Class::Class64 => uint_bytes((h.name as u32) as int, 4, e)
            + uint_bytes(section::type_code(h.typ) as int, 4, e)
            + uint_bytes(h.flags.bits as int, 8, e)
            + word_bytes(class, e, h.addr as usize)
            + word_bytes(class, e, h.offset)
            + uint_bytes((h.size as u64) as int, 8, e)
            + uint_bytes(h.link as int, 4, e)
            + uint_bytes(h.info as int, 4, e)
            + uint_bytes(h.align as int, 8, e)
            + uint_bytes(h.entry_size as int, 8, e),
    }
}

/// The all-zero section header that opens every section header table.
pub open spec fn null_section_header() -> section::Header {
    section::Header {
        name: 0,
        typ: section::Type::Null,
        flags: section::Flags { bits: 0 },
        addr: 0,
        offset: 0,
        size: 0,
        link: 0,
        info: 0,
        align: 0,
        entry_size: 0,
    }
}

/// The bytes of a program header. The fields come in a different order in
/// the two classes; in a 32-bit file the sizes and alignment are truncated
/// to 32 bits.
pub open spec fn phdr_bytes(class: Class, e: Endianness, h: segment::Header) -> Seq<u8> {
    match class {
        Class::Class32 => uint_bytes(segment::type_code(h.segment_type) as int, 4, e)
            + word_bytes(class, e, h.offset as usize)
            + word_bytes(class, e, h.virtual_addr as usize)
            + word_bytes(class, e, h.physical_addr as usize)
            + uint_bytes((h.file_size as u32) as int, 4, e)
            + uint_bytes((h.mem_size as u32) as int, 4, e)
            + uint_bytes(h.flags.bits as int, 4, e)
            + uint_bytes((h.align as u32) as int, 4, e),
        Class::Class64 => uint_bytes(segment::type_code(h.segment_type) as int, 4, e)
            + uint_bytes(h.flags.bits as int, 4, e)
            + word_bytes(class, e, h.offset as usize)
            + word_bytes(class, e, h.virtual_addr as usize)
            + word_bytes(class, e, h.physical_addr as usize)
            + uint_bytes(h.file_size as int, 8, e)
            + uint_bytes(h.mem_size as int, 8, e)
            + uint_bytes(h.align as int, 8, e),
    }
}

/// `st_info`: the binding in the high nibble, the type in the low one.
pub open spec fn sym_info(s: Sym) -> u8 {
    (bind_code(s.bind) * 16 + sym_type_code(s.typ)) as u8
}

/// The bytes of a symbol table entry, in the field order of the class.
pub open spec fn sym_bytes(class: Class, e: Endianness, s: Sym) -> Seq<u8> {
    match class {
        Class::Class32 => uint_bytes(s.name as int, 4, e)
            + word_bytes(class, e, s.value)
            + word_bytes(class, e, s.size)
            + seq![sym_info(s)]
            + seq![s.other]
            + uint_bytes(s.shndx as int, 2, e),
        Class::Class64 => uint_bytes(s.name as int, 4, e)
            + seq![sym_info(s)]
            + seq![s.other]
            + uint_bytes(s.shndx as int, 2, e)
            + word_bytes(class, e, s.value)
            + word_bytes(class, e, s.size),
    }
}

/// The size of a file header in the class (`e_ehsize`).
pub open spec fn ehdr_size(class: Class) -> nat {
    match class {
        Class::Class32 => 52,
        Class::Class64 => 64,
    }
}

/// The size of a section header in the class (`e_shentsize`).
pub open spec fn shdr_size(class: Class) -> nat {
    match class {
        Class::Class32 => 40,
        Class::Class64 => 64,
    }
}

/// The size of a program header in the class (`e_phentsize`).
pub open spec fn phdr_size(class: Class) -> nat {
    match class {
        Class::Class32 => 32,
        Class::Class64 => 56,
    }
}

/// The size of a symbol table entry in the class.
pub open spec fn sym_size(class: Class) -> nat {
    match class {
        Class::Class32 => 16,
        Class::Class64 => 24,
    }
}

proof fn lemma_le_bytes_zero(n: nat)
    ensures
        le_bytes(0, n) == zeros(n),
    decreases n,
{
    if n > 0 {
        lemma_le_bytes_zero((n - 1) as nat);
        assert(le_bytes(0, n) =~= zeros(n));
    } else {
        assert(le_bytes(0, n) =~= zeros(n));
    }
}

/// The null section header is laid out as `shentsize` zero bytes.
pub proof fn lemma_null_section_is_zeros(class: Class, e: Endianness)
    ensures
        shdr_bytes(class, e, null_section_header()) == zeros(shdr_size(class)),
{
    lemma_le_bytes_zero(4);
    lemma_le_bytes_zero(8);
    assert(le_bytes(0, 4).reverse() =~= zeros(4));
    assert(le_bytes(0, 8).reverse() =~= zeros(8));
    assert(((0usize as u64) as usize as u32) == 0u32) by (bit_vector);
    assert(shdr_bytes(class, e, null_section_header()) =~= zeros(shdr_size(class)));
}

/// The `word_bytes` of a class hold 4 or 8 bytes.
pub broadcast proof fn lemma_word_bytes_len(class: Class, e: Endianness, v: usize)
    ensures
        #[trigger] word_bytes(class, e, v).len() == match class {
            Class::Class32 => 4nat,
            Class::Class64 => 8nat,
        },
{
}

/// Each structure is laid out in exactly as many bytes as the matching
/// size says: a file header in `elf_header_size`, a section header in
/// `shentsize`, a program header in `phentsize` and a symbol in `symsize`.
pub proof fn lemma_layout_sizes(
    class: Class,
    e: Endianness,
    eh: elf::Header,
    sh: section::Header,
    ph: segment::Header,
    s: Sym,
)
    ensures
        ehdr_bytes(class, e, eh).len() == ehdr_size(class),
        shdr_bytes(class, e, sh).len() == shdr_size(class),
        phdr_bytes(class, e, ph).len() == phdr_size(class),
        sym_bytes(class, e, s).len() == sym_size(class),
{
    broadcast use lemma_word_bytes_len;

}

/// The bytes of a 32-bit file header: `e_ident` (the magic `\x7fELF`, class 1, the byte order, version 1, the OS ABI and ABI version), then `e_type`, `e_machine` (two bytes each), `e_version` (1), `e_entry`, `e_phoff`, `e_shoff`, `e_flags` (four bytes each), then the six two-byte fields from `e_ehsize` to `e_shstrndx` (`Elf32_Ehdr`), in the byte order `e`.
pub proof fn lemma_ehdr32_layout(e: Endianness, h: elf::Header)
    ensures
        ehdr_bytes(Class::Class32, e, h).len() == 52,
        ehdr_bytes(Class::Class32, e, h)[0] == 0x7fu8,
        ehdr_bytes(Class::Class32, e, h)[1] == 0x45u8,
        ehdr_bytes(Class::Class32, e, h)[2] == 0x4cu8,
        ehdr_bytes(Class::Class32, e, h)[3] == 0x46u8,
        ehdr_bytes(Class::Class32, e, h)[5] == endianness_code(e),
        ehdr_bytes(Class::Class32, e, h)[6] == 1u8,
        ehdr_bytes(Class::Class32, e, h)[7] == h.os_abi,
        ehdr_bytes(Class::Class32, e, h)[8] == h.abi_version,
        ehdr_bytes(Class::Class32, e, h)[4] == 1u8,
        ehdr_bytes(Class::Class32, e, h).subrange(16, 18) == uint_bytes(elf::type_code(h.typ) as int, 2, e),
        ehdr_bytes(Class::Class32, e, h).subrange(18, 20) == uint_bytes(h.machine as int, 2, e),
        ehdr_bytes(Class::Class32, e, h).subrange(20, 24) == uint_bytes(1, 4, e),
        ehdr_bytes(Class::Class32, e, h).subrange(24, 28) == uint_bytes((h.entry as u32) as int, 4, e),
        ehdr_bytes(Class::Class32, e, h).subrange(28, 32) == uint_bytes((h.phoff as u32) as int, 4, e),
        ehdr_bytes(Class::Class32, e, h).subrange(32, 36) == uint_bytes((h.shoff as u32) as int, 4, e),
        ehdr_bytes(Class::Class32, e, h).subrange(36, 40) == uint_bytes(h.flags as int, 4, e),
        ehdr_bytes(Class::Class32, e, h).subrange(40, 42) == uint_bytes(h.header_size as int, 2, e),
        ehdr_bytes(Class::Class32, e, h).subrange(42, 44) == uint_bytes(h.phentsize as int, 2, e),
        ehdr_bytes(Class::Class32, e, h).subrange(44, 46) == uint_bytes(h.phnum as int, 2, e),
        ehdr_bytes(Class::Class32, e, h).subrange(46, 48) == uint_bytes(h.shentsize as int, 2, e),
        ehdr_bytes(Class::Class32, e, h).subrange(48, 50) == uint_bytes(h.shnum as int, 2, e),
        ehdr_bytes(Class::Class32, e, h).subrange(50, 52) == uint_bytes(h.shstrndx as int, 2, e),
{
    broadcast use crate::bytes::lemma_uint_bytes_len;
    broadcast use lemma_word_bytes_len;

    assert(ehdr_bytes(Class::Class32, e, h).subrange(16, 18) =~= uint_bytes(elf::type_code(h.typ) as int, 2, e));
    assert(ehdr_bytes(Class::Class32, e, h).subrange(18, 20) =~= uint_bytes(h.machine as int, 2, e));
    assert(ehdr_bytes(Class::Class32, e, h).subrange(20, 24) =~= uint_bytes(1, 4, e));
    assert(ehdr_bytes(Class::Class32, e, h).subrange(24, 28) =~= uint_bytes((h.entry as u32) as int, 4, e));
    assert(ehdr_bytes(Class::Class32, e, h).subrange(28, 32) =~= uint_bytes((h.phoff as u32) as int, 4, e));
    assert(ehdr_bytes(Class::Class32, e, h).subrange(32, 36) =~= uint_bytes((h.shoff as u32) as int, 4, e));
    assert(ehdr_bytes(Class::Class32, e, h).subrange(36, 40) =~= uint_bytes(h.flags as int, 4, e));
    assert(ehdr_bytes(Class::Class32, e, h).subrange(40, 42) =~= uint_bytes(h.header_size as int, 2, e));
    assert(ehdr_bytes(Class::Class32, e, h).subrange(42, 44) =~= uint_bytes(h.phentsize as int, 2, e));
    assert(ehdr_bytes(Class::Class32, e, h).subrange(44, 46) =~= uint_bytes(h.phnum as int, 2, e));
    assert(ehdr_bytes(Class::Class32, e, h).subrange(46, 48) =~= uint_bytes(h.shentsize as int, 2, e));
    assert(ehdr_bytes(Class::Class32, e, h).subrange(48, 50) =~= uint_bytes(h.shnum as int, 2, e));
    assert(ehdr_bytes(Class::Class32, e, h).subrange(50, 52) =~= uint_bytes(h.shstrndx as int, 2, e));
}

/// The bytes of a 64-bit file header: `e_ident` (the magic `\x7fELF`, class 2, the byte order, version 1, the OS ABI and ABI version), then `e_type`, `e_machine` (two bytes each), `e_version` (1, four bytes), `e_entry`, `e_phoff`, `e_shoff` (eight bytes each), `e_flags` (four bytes), then the six two-byte fields from `e_ehsize` to `e_shstrndx` (`Elf64_Ehdr`), in the byte order `e`.
pub proof fn lemma_ehdr64_layout(e: Endianness, h: elf::Header)
    ensures
        ehdr_bytes(Class::Class64, e, h).len() == 64,
        ehdr_bytes(Class::Class64, e, h)[0] == 0x7fu8,
        ehdr_bytes(Class::Class64, e, h)[1] == 0x45u8,
        ehdr_bytes(Class::Class64, e, h)[2] == 0x4cu8,
        ehdr_bytes(Class::Class64, e, h)[3] == 0x46u8,
        ehdr_bytes(Class::Class64, e, h)[5] == endianness_code(e),
        ehdr_bytes(Class::Class64, e, h)[6] == 1u8,
        ehdr_bytes(Class::Class64, e, h)[7] == h.os_abi,
        ehdr_bytes(Class::Class64, e, h)[8] == h.abi_version,
        ehdr_bytes(Class::Class64, e, h)[4] == 2u8,
        ehdr_bytes(Class::Class64, e, h).subrange(16, 18) == uint_bytes(elf::type_code(h.typ) as int, 2, e),
        ehdr_bytes(Class::Class64, e, h).subrange(18, 20) == uint_bytes(h.machine as int, 2, e),
        ehdr_bytes(Class::Class64, e, h).subrange(20, 24) == uint_bytes(1, 4, e),
        ehdr_bytes(Class::Class64, e, h).subrange(24, 32) == uint_bytes(h.entry as int, 8, e),
        ehdr_bytes(Class::Class64, e, h).subrange(32, 40) == uint_bytes(h.phoff as int, 8, e),
        ehdr_bytes(Class::Class64, e, h).subrange(40, 48) == uint_bytes(h.shoff as int, 8, e),
        ehdr_bytes(Class::Class64, e, h).subrange(48, 52) == uint_bytes(h.flags as int, 4, e),
        ehdr_bytes(Class::Class64, e, h).subrange(52, 54) == uint_bytes(h.header_size as int, 2, e),
        ehdr_bytes(Class::Class64, e, h).subrange(54, 56) == uint_bytes(h.phentsize as int, 2, e),
        ehdr_bytes(Class::Class64, e, h).subrange(56, 58) == uint_bytes(h.phnum as int, 2, e),
        ehdr_bytes(Class::Class64, e, h).subrange(58, 60) == uint_bytes(h.shentsize as int, 2, e),
        ehdr_bytes(Class::Class64, e, h).subrange(60, 62) == uint_bytes(h.shnum as int, 2, e),
        ehdr_bytes(Class::Class64, e, h).subrange(62, 64) == uint_bytes(h.shstrndx as int, 2, e),
{
    broadcast use crate::bytes::lemma_uint_bytes_len;
    broadcast use lemma_word_bytes_len;

    assert(ehdr_bytes(Class::Class64, e, h).subrange(16, 18) =~= uint_bytes(elf::type_code(h.typ) as int, 2, e));
    assert(ehdr_bytes(Class::Class64, e, h).subrange(18, 20) =~= uint_bytes(h.machine as int, 2, e));
    assert(ehdr_bytes(Class::Class64, e, h).subrange(20, 24) =~= uint_bytes(1, 4, e));
    assert(ehdr_bytes(Class::Class64, e, h).subrange(24, 32) =~= uint_bytes(h.entry as int, 8, e));
    assert(ehdr_bytes(Class::Class64, e, h).subrange(32, 40) =~= uint_bytes(h.phoff as int, 8, e));
    assert(ehdr_bytes(Class::Class64, e, h).subrange(40, 48) =~= uint_bytes(h.shoff as int, 8, e));
    assert(ehdr_bytes(Class::Class64, e, h).subrange(48, 52) =~= uint_bytes(h.flags as int, 4, e));
    assert(ehdr_bytes(Class::Class64, e, h).subrange(52, 54) =~= uint_bytes(h.header_size as int, 2, e));
    assert(ehdr_bytes(Class::Class64, e, h).subrange(54, 56) =~= uint_bytes(h.phentsize as int, 2, e));
    assert(ehdr_bytes(Class::Class64, e, h).subrange(56, 58) =~= uint_bytes(h.phnum as int, 2, e));
    assert(ehdr_bytes(Class::Class64, e, h).subrange(58, 60) =~= uint_bytes(h.shentsize as int, 2, e));
    assert(ehdr_bytes(Class::Class64, e, h).subrange(60, 62) =~= uint_bytes(h.shnum as int, 2, e));
    assert(ehdr_bytes(Class::Class64, e, h).subrange(62, 64) =~= uint_bytes(h.shstrndx as int, 2, e));
}

/// The bytes of a 32-bit program header: `p_type`, `p_offset`, `p_vaddr`, `p_paddr`, `p_filesz`, `p_memsz`, `p_flags`, `p_align`, four bytes each (`Elf32_Phdr`), in the byte order `e`.
pub proof fn lemma_phdr32_layout(e: Endianness, h: segment::Header)
    requires
        h.offset <= usize::MAX && h.virtual_addr <= usize::MAX && h.physical_addr <= usize::MAX,
    ensures
        phdr_bytes(Class::Class32, e, h).len() == 32,
        phdr_bytes(Class::Class32, e, h).subrange(0, 4) == uint_bytes(segment::type_code(h.segment_type) as int, 4, e),
        phdr_bytes(Class::Class32, e, h).subrange(4, 8) == uint_bytes((h.offset as u32) as int, 4, e),
        phdr_bytes(Class::Class32, e, h).subrange(8, 12) == uint_bytes((h.virtual_addr as u32) as int, 4, e),
        phdr_bytes(Class::Class32, e, h).subrange(12, 16) == uint_bytes((h.physical_addr as u32) as int, 4, e),
        phdr_bytes(Class::Class32, e, h).subrange(16, 20) == uint_bytes((h.file_size as u32) as int, 4, e),
        phdr_bytes(Class::Class32, e, h).subrange(20, 24) == uint_bytes((h.mem_size as u32) as int, 4, e),
        phdr_bytes(Class::Class32, e, h).subrange(24, 28) == uint_bytes(h.flags.bits as int, 4, e),
        phdr_bytes(Class::Class32, e, h).subrange(28, 32) == uint_bytes((h.align as u32) as int, 4, e),
{
    broadcast use crate::bytes::lemma_uint_bytes_len;

    assert(phdr_bytes(Class::Class32, e, h).subrange(0, 4) =~= uint_bytes(segment::type_code(h.segment_type) as int, 4, e));
    assert(phdr_bytes(Class::Class32, e, h).subrange(4, 8) =~= uint_bytes((h.offset as u32) as int, 4, e));
    assert(phdr_bytes(Class::Class32, e, h).subrange(8, 12) =~= uint_bytes((h.virtual_addr as u32) as int, 4, e));
    assert(phdr_bytes(Class::Class32, e, h).subrange(12, 16) =~= uint_bytes((h.physical_addr as u32) as int, 4, e));
    assert(phdr_bytes(Class::Class32, e, h).subrange(16, 20) =~= uint_bytes((h.file_size as u32) as int, 4, e));
    assert(phdr_bytes(Class::Class32, e, h).subrange(20, 24) =~= uint_bytes((h.mem_size as u32) as int, 4, e));
    assert(phdr_bytes(Class::Class32, e, h).subrange(24, 28) =~= uint_bytes(h.flags.bits as int, 4, e));
    assert(phdr_bytes(Class::Class32, e, h).subrange(28, 32) =~= uint_bytes((h.align as u32) as int, 4, e));
}

/// The bytes of a 64-bit program header: `p_type` and `p_flags` (four bytes each), then `p_offset`, `p_vaddr`, `p_paddr`, `p_filesz`, `p_memsz`, `p_align` (eight bytes each) (`Elf64_Phdr`), in the byte order `e`.
pub proof fn lemma_phdr64_layout(e: Endianness, h: segment::Header)
    requires
        h.offset <= usize::MAX && h.virtual_addr <= usize::MAX && h.physical_addr <= usize::MAX,
    ensures
        phdr_bytes(Class::Class64, e, h).len() == 56,
        phdr_bytes(Class::Class64, e, h).subrange(0, 4) == uint_bytes(segment::type_code(h.segment_type) as int, 4, e),
        phdr_bytes(Class::Class64, e, h).subrange(4, 8) == uint_bytes(h.flags.bits as int, 4, e),
        phdr_bytes(Class::Class64, e, h).subrange(8, 16) == uint_bytes(h.offset as int, 8, e),
        phdr_bytes(Class::Class64, e, h).subrange(16, 24) == uint_bytes(h.virtual_addr as int, 8, e),
        phdr_bytes(Class::Class64, e, h).subrange(24, 32) == uint_bytes(h.physical_addr as int, 8, e),
        phdr_bytes(Class::Class64, e, h).subrange(32, 40) == uint_bytes(h.file_size as int, 8, e),
        phdr_bytes(Class::Class64, e, h).subrange(40, 48) == uint_bytes(h.mem_size as int, 8, e),
        phdr_bytes(Class::Class64, e, h).subrange(48, 56) == uint_bytes(h.align as int, 8, e),
{
    broadcast use crate::bytes::lemma_uint_bytes_len;

    assert(phdr_bytes(Class::Class64, e, h).subrange(0, 4) =~= uint_bytes(segment::type_code(h.segment_type) as int, 4, e));
    assert(phdr_bytes(Class::Class64, e, h).subrange(4, 8) =~= uint_bytes(h.flags.bits as int, 4, e));
    assert(phdr_bytes(Class::Class64, e, h).subrange(8, 16) =~= uint_bytes(h.offset as int, 8, e));
    assert(phdr_bytes(Class::Class64, e, h).subrange(16, 24) =~= uint_bytes(h.virtual_addr as int, 8, e));
    assert(phdr_bytes(Class::Class64, e, h).subrange(24, 32) =~= uint_bytes(h.physical_addr as int, 8, e));
    assert(phdr_bytes(Class::Class64, e, h).subrange(32, 40) =~= uint_bytes(h.file_size as int, 8, e));
    assert(phdr_bytes(Class::Class64, e, h).subrange(40, 48) =~= uint_bytes(h.mem_size as int, 8, e));
    assert(phdr_bytes(Class::Class64, e, h).subrange(48, 56) =~= uint_bytes(h.align as int, 8, e));
}

/// The bytes of a 32-bit section header: `sh_name`, `sh_type`, `sh_flags`, `sh_addr`, `sh_offset`, `sh_size`, `sh_link`, `sh_info`, `sh_addralign`, `sh_entsize`, four bytes each (`Elf32_Shdr`), in the byte order `e`.
pub proof fn lemma_shdr32_layout(e: Endianness, h: section::Header)
    requires
        h.addr <= usize::MAX,
    ensures
        shdr_bytes(Class::Class32, e, h).len() == 40,
        shdr_bytes(Class::Class32, e, h).subrange(0, 4) == uint_bytes((h.name as u32) as int, 4, e),
        shdr_bytes(Class::Class32, e, h).subrange(4, 8) == uint_bytes(section::type_code(h.typ) as int, 4, e),
        shdr_bytes(Class::Class32, e, h).subrange(8, 12) == uint_bytes(h.flags.bits as int, 4, e),
        shdr_bytes(Class::Class32, e, h).subrange(12, 16) == uint_bytes((h.addr as u32) as int, 4, e),
        shdr_bytes(Class::Class32, e, h).subrange(16, 20) == uint_bytes((h.offset as u32) as int, 4, e),
        shdr_bytes(Class::Class32, e, h).subrange(20, 24) == uint_bytes((h.size as u32) as int, 4, e),
        shdr_bytes(Class::Class32, e, h).subrange(24, 28) == uint_bytes(h.link as int, 4, e),
        shdr_bytes(Class::Class32, e, h).subrange(28, 32) == uint_bytes(h.info as int, 4, e),
        shdr_bytes(Class::Class32, e, h).subrange(32, 36) == uint_bytes((h.align as u32) as int, 4, e),
        shdr_bytes(Class::Class32, e, h).subrange(36, 40) == uint_bytes((h.entry_size as u32) as int, 4, e),
{
    broadcast use crate::bytes::lemma_uint_bytes_len;

    assert(shdr_bytes(Class::Class32, e, h).subrange(0, 4) =~= uint_bytes((h.name as u32) as int, 4, e));
    assert(shdr_bytes(Class::Class32, e, h).subrange(4, 8) =~= uint_bytes(section::type_code(h.typ) as int, 4, e));
    assert(shdr_bytes(Class::Class32, e, h).subrange(8, 12) =~= uint_bytes(h.flags.bits as int, 4, e));
    assert(shdr_bytes(Class::Class32, e, h).subrange(12, 16) =~= uint_bytes((h.addr as u32) as int, 4, e));
    assert(shdr_bytes(Class::Class32, e, h).subrange(16, 20) =~= uint_bytes((h.offset as u32) as int, 4, e));
    assert(shdr_bytes(Class::Class32, e, h).subrange(20, 24) =~= uint_bytes((h.size as u32) as int, 4, e));
    assert(shdr_bytes(Class::Class32, e, h).subrange(24, 28) =~= uint_bytes(h.link as int, 4, e));
    assert(shdr_bytes(Class::Class32, e, h).subrange(28, 32) =~= uint_bytes(h.info as int, 4, e));
    assert(shdr_bytes(Class::Class32, e, h).subrange(32, 36) =~= uint_bytes((h.align as u32) as int, 4, e));
    assert(shdr_bytes(Class::Class32, e, h).subrange(36, 40) =~= uint_bytes((h.entry_size as u32) as int, 4, e));
}

/// The bytes of a 64-bit section header: `sh_name` and `sh_type` (four bytes each), `sh_flags`, `sh_addr`, `sh_offset`, `sh_size` (eight each), `sh_link`, `sh_info` (four each), `sh_addralign`, `sh_entsize` (eight each) (`Elf64_Shdr`), in the byte order `e`.
pub proof fn lemma_shdr64_layout(e: Endianness, h: section::Header)
    requires
        h.addr <= usize::MAX,
    ensures
        shdr_bytes(Class::Class64, e, h).len() == 64,
        shdr_bytes(Class::Class64, e, h).subrange(0, 4) == uint_bytes((h.name as u32) as int, 4, e),
        shdr_bytes(Class::Class64, e, h).subrange(4, 8) == uint_bytes(section::type_code(h.typ) as int, 4, e),
        shdr_bytes(Class::Class64, e, h).subrange(8, 16) == uint_bytes(h.flags.bits as int, 8, e),
        shdr_bytes(Class::Class64, e, h).subrange(16, 24) == uint_bytes(h.addr as int, 8, e),
        shdr_bytes(Class::Class64, e, h).subrange(24, 32) == uint_bytes(h.offset as int, 8, e),
        shdr_bytes(Class::Class64, e, h).subrange(32, 40) == uint_bytes(h.size as int, 8, e),
        shdr_bytes(Class::Class64, e, h).subrange(40, 44) == uint_bytes(h.link as int, 4, e),
        shdr_bytes(Class::Class64, e, h).subrange(44, 48) == uint_bytes(h.info as int, 4, e),
        shdr_bytes(Class::Class64, e, h).subrange(48, 56) == uint_bytes(h.align as int, 8, e),
        shdr_bytes(Class::Class64, e, h).subrange(56, 64) == uint_bytes(h.entry_size as int, 8, e),
{
    broadcast use crate::bytes::lemma_uint_bytes_len;

    assert(shdr_bytes(Class::Class64, e, h).subrange(0, 4) =~= uint_bytes((h.name as u32) as int, 4, e));
    assert(shdr_bytes(Class::Class64, e, h).subrange(4, 8) =~= uint_bytes(section::type_code(h.typ) as int, 4, e));
    assert(shdr_bytes(Class::Class64, e, h).subrange(8, 16) =~= uint_bytes(h.flags.bits as int, 8, e));
    assert(shdr_bytes(Class::Class64, e, h).subrange(16, 24) =~= uint_bytes(h.addr as int, 8, e));
    assert(shdr_bytes(Class::Class64, e, h).subrange(24, 32) =~= uint_bytes(h.offset as int, 8, e));
    assert(shdr_bytes(Class::Class64, e, h).subrange(32, 40) =~= uint_bytes(h.size as int, 8, e));
    assert(shdr_bytes(Class::Class64, e, h).subrange(40, 44) =~= uint_bytes(h.link as int, 4, e));
    assert(shdr_bytes(Class::Class64, e, h).subrange(44, 48) =~= uint_bytes(h.info as int, 4, e));
    assert(shdr_bytes(Class::Class64, e, h).subrange(48, 56) =~= uint_bytes(h.align as int, 8, e));
    assert(shdr_bytes(Class::Class64, e, h).subrange(56, 64) =~= uint_bytes(h.entry_size as int, 8, e));
}

/// The bytes of a 32-bit symbol table entry: `st_name`, `st_value`, `st_size` (four bytes each), `st_info`, `st_other` (a byte each), `st_shndx` (two bytes) (`Elf32_Sym`), in the byte order `e`.
pub proof fn lemma_sym32_layout(e: Endianness, x: Sym)
    ensures
        sym_bytes(Class::Class32, e, x).len() == 16,
        sym_bytes(Class::Class32, e, x).subrange(0, 4) == uint_bytes(x.name as int, 4, e),
        sym_bytes(Class::Class32, e, x).subrange(4, 8) == uint_bytes((x.value as u32) as int, 4, e),
        sym_bytes(Class::Class32, e, x).subrange(8, 12) == uint_bytes((x.size as u32) as int, 4, e),
        sym_bytes(Class::Class32, e, x)[12] == sym_info(x),
        sym_bytes(Class::Class32, e, x)[13] == x.other,
        sym_bytes(Class::Class32, e, x).subrange(14, 16) == uint_bytes(x.shndx as int, 2, e),
{
    broadcast use crate::bytes::lemma_uint_bytes_len;

    assert(sym_bytes(Class::Class32, e, x).subrange(0, 4) =~= uint_bytes(x.name as int, 4, e));
    assert(sym_bytes(Class::Class32, e, x).subrange(4, 8) =~= uint_bytes((x.value as u32) as int, 4, e));
    assert(sym_bytes(Class::Class32, e, x).subrange(8, 12) =~= uint_bytes((x.size as u32) as int, 4, e));
    assert(sym_bytes(Class::Class32, e, x).subrange(14, 16) =~= uint_bytes(x.shndx as int, 2, e));
}

/// The bytes of a 64-bit symbol table entry: `st_name` (four bytes), `st_info`, `st_other` (a byte each), `st_shndx` (two bytes), `st_value`, `st_size` (eight bytes each) (`Elf64_Sym`), in the byte order `e`.
pub proof fn lemma_sym64_layout(e: Endianness, x: Sym)
    ensures
        sym_bytes(Class::Class64, e, x).len() == 24,
        sym_bytes(Class::Class64, e, x).subrange(0, 4) == uint_bytes(x.name as int, 4, e),
        sym_bytes(Class::Class64, e, x)[4] == sym_info(x),
        sym_bytes(Class::Class64, e, x)[5] == x.other,
        sym_bytes(Class::Class64, e, x).subrange(6, 8) == uint_bytes(x.shndx as int, 2, e),
        sym_bytes(Class::Class64, e, x).subrange(8, 16) == uint_bytes(x.value as int, 8, e),
        sym_bytes(Class::Class64, e, x).subrange(16, 24) == uint_bytes(x.size as int, 8, e),
{
    broadcast use crate::bytes::lemma_uint_bytes_len;

    assert(sym_bytes(Class::Class64, e, x).subrange(0, 4) =~= uint_bytes(x.name as int, 4, e));
    assert(sym_bytes(Class::Class64, e, x).subrange(6, 8) =~= uint_bytes(x.shndx as int, 2, e));
    assert(sym_bytes(Class::Class64, e, x).subrange(8, 16) =~= uint_bytes(x.value as int, 8, e));
    assert(sym_bytes(Class::Class64, e, x).subrange(16, 24) =~= uint_bytes(x.size as int, 8, e));
}

/// A write is read back where it was made: after writing `bytes` at
/// `pos`, the buffer holds `bytes` at `pos .. pos + bytes.len()`, keeps
/// every other byte it had, reads as zero between its old end and `pos`,
/// and ends at the later of its old end and the end of the write.
pub proof fn lemma_write_reads_back(data: Seq<u8>, pos: int, bytes: Seq<u8>)
    requires
        0 <= pos,
    ensures
        cursor_write(data, pos, bytes).subrange(pos, pos + bytes.len()) == bytes,
        cursor_write(data, pos, bytes).len() == if pos + bytes.len() > data.len() {
            pos + bytes.len()
        } else {
            data.len() as int
        },
        forall|i: int|
            0 <= i < data.len() && !(pos <= i < pos + bytes.len()) ==> cursor_write(
                data,
                pos,
                bytes,
            )[i] == data[i],
        forall|i: int|
            data.len() <= i < pos ==> cursor_write(data, pos, bytes)[i] == 0u8,
{
    assert(cursor_write(data, pos, bytes).subrange(pos, pos + bytes.len()) =~= bytes);
}

/// A write followed by a write where it ended is one write of both.
pub proof fn lemma_wrote_then(w0: Writer, w1: Writer, w2: Writer, a: Seq<u8>, b: Seq<u8>)
    requires
        w1.wrote(w0, a),
        w2.wrote(w1, b),
    ensures
        w2.wrote(w0, a + b),
{
    lemma_cursor_write_twice(w0.contents(), w0.position() as int, a, w1.position() as int, b);
}

/// A write's outcome is fixed by the writer before it and the bytes: two
/// writers that wrote the same bytes from the same writer agree in class,
/// byte order, contents and position.
pub proof fn lemma_wrote_determines(w0: Writer, w1: Writer, w2: Writer, bytes: Seq<u8>)
    requires
        w1.wrote(w0, bytes),
        w2.wrote(w0, bytes),
    ensures
        w1.class() == w2.class(),
        w1.endian() == w2.endian(),
        w1.contents() == w2.contents(),
        w1.position() == w2.position(),
{
}

/// Writes into a new writer come one after the other: after writing `a`
/// and then `b`, the buffer holds `a` followed by `b` and the position is
/// right after them.
pub proof fn lemma_writes_from_empty(w0: Writer, w1: Writer, w2: Writer, a: Seq<u8>, b: Seq<u8>)
    requires
        w0.contents() == Seq::<u8>::empty(),
        w0.position() == 0,
        w1.wrote(w0, a),
        w2.wrote(w1, b),
    ensures
        w2.contents() == a + b,
        w2.position() == a.len() + b.len(),
{
    lemma_wrote_then(w0, w1, w2, a, b);
    assert(cursor_write(Seq::<u8>::empty(), 0, a + b) =~= a + b);
}

/// `align - 1`, with an alignment of 0 taken as 1.
pub open spec fn align_mask(align: u64) -> u64 {
    if align > 1 {
        (align - 1) as u64
    } else {
        0
    }
}

/// `v` rounded up by the alignment mask: `(v + mask) & !mask`.
pub open spec fn align_up(v: u64, align: u64) -> u64 {
    ((v + align_mask(align)) as u64) & !align_mask(align)
}

/// For a power-of-two alignment, `align_up` gives the least multiple of
/// `align` that is not below `v`.
pub proof fn lemma_align_up_pow2(v: u64, align: u64, k: nat)
    requires
        k < 64,
        align == vstd::arithmetic::power2::pow2(k),
        v + (align - 1) <= u64::MAX,
    ensures
        align_up(v, align) % align == 0,
        v <= align_up(v, align),
        align_up(v, align) < v + align,
{
    vstd::bits::lemma_u64_pow2_no_overflow(k);
    vstd::arithmetic::power2::lemma_pow2_pos(k);
    let m: u64 = (align - 1) as u64;
    assert(align_mask(align) == m);
    let x: u64 = (v + m) as u64;
    vstd::bits::lemma_u64_low_bits_mask_is_mod(x, k);
    assert((vstd::bits::low_bits_mask(k) as u64) == m);
    assert(x & m == x % align);
    assert((x & !m) + (x & m) == x) by (bit_vector);
    let y: u64 = x & !m;
    assert(y == x - x % align);
    vstd::arithmetic::div_mod::lemma_fundamental_div_mod(x as int, align as int);
    vstd::arithmetic::div_mod::lemma_mod_multiples_basic(x as int / align as int, align as int);
    assert(y as int == align as int * (x as int / align as int));
    vstd::arithmetic::mul::lemma_mul_is_commutative(align as int, x as int / align as int);
}

/// `n` zero bytes.
pub open spec fn zeros(n: nat) -> Seq<u8> {
    Seq::new(n, |_i: int| 0u8)
}

/// A writer of ELF structures.
pub struct Writer {
    class: Class,
    endian: Endianness,
    buf: Vec<u8>,
    pos: u64,
}

impl Writer {
    /// The class the writer lays structures out in.
    pub closed spec fn class(&self) -> Class {
        self.class
    }

    /// The byte order the writer lays structures out in.
    pub closed spec fn endian(&self) -> Endianness {
        self.endian
    }

    /// The bytes written so far.
    pub closed spec fn contents(&self) -> Seq<u8> {
        self.buf@
    }

    /// The current position, where the next write starts.
    pub closed spec fn position(&self) -> u64 {
        self.pos
    }

    /// `self` is `before` after writing `bytes` at its position: same class
    /// and byte order, contents updated as a cursor write, position moved
    /// past the bytes.
    pub open spec fn wrote(&self, before: Writer, bytes: Seq<u8>) -> bool {
        &&& self.class() == before.class()
        &&& self.endian() == before.endian()
        &&& self.contents() == cursor_write(before.contents(), before.position() as int, bytes)
        &&& self.position() == before.position() + bytes.len()
    }

    /// `self` is `before` with only the position changed, to `pos`.
    pub open spec fn moved(&self, before: Writer, pos: int) -> bool {
        &&& self.class() == before.class()
        &&& self.endian() == before.endian()
        &&& self.contents() == before.contents()
        &&& self.position() == pos
    }

    /// An empty writer at position 0.
    pub fn new(class: Class, endian: Endianness) -> (r: Self)
        ensures
            r.class() == class,
            r.endian() == endian,
            r.contents() == Seq::<u8>::empty(),
            r.position() == 0,
    {
        Writer { class, endian, buf: Vec::new(), pos: 0 }
    }

    /// Moves the position by `off` bytes, backwards where `off` is negative.
    pub fn seek(&mut self, off: i64)
        requires
            0 <= old(self).position() + off <= u64::MAX,
        ensures
            final(self).moved(*old(self), old(self).position() + off),
    {
        let p: i128 = self.pos as i128 + off as i128;
        self.pos = p as u64;
    }

    /// Moves the position to `off` bytes from the start.
    pub fn seek_start(&mut self, off: u64)
        ensures
            final(self).moved(*old(self), off as int),
    {
        self.pos = off;
    }

    /// The current position.
    pub fn tell(&self) -> (r: u64)
        ensures
            r == self.position(),
    {
        self.pos
    }

    /// Moves the position back to the start.
    pub fn rewind(&mut self)
        ensures
            final(self).moved(*old(self), 0),
    {
        self.pos = 0;
    }

    /// The bytes written, giving up the writer.
    pub fn into_inner(self) -> (r: Vec<u8>)
        ensures
            r@ == self.contents(),
    {
        self.buf
    }

    /// Writes `bytes` at the current position and moves past them.
    pub fn write_bytes(&mut self, bytes: &[u8])
        requires
            old(self).position() + bytes@.len() <= usize::MAX,
        ensures
            final(self).wrote(*old(self), bytes@),
    {
        let ghost data0 = self.buf@;
        let start: usize = self.pos as usize;
        while self.buf.len() < start
            invariant
                start == old(self).pos,
                old(self).pos + bytes@.len() <= usize::MAX,
                data0 == old(self).buf@,
                self.pos == old(self).pos,
                self.class == old(self).class,
                self.endian == old(self).endian,
                data0.len() <= self.buf@.len(),
                self.buf@.len() == data0.len() || self.buf@.len() <= start,
                forall|i: int| 0 <= i < data0.len() ==> self.buf@[i] == data0[i],
                forall|i: int| data0.len() <= i < self.buf@.len() ==> self.buf@[i] == 0u8,
            decreases start - self.buf.len(),
        {
            self.buf.push(0u8);
        }
        let ghost padded = self.buf@;
        assert(padded.len() >= start);
        let n: usize = bytes.len();
        let mut k: usize = 0;
        while k < n
            invariant
                start == old(self).pos,
                self.pos == old(self).pos,
                self.class == old(self).class,
                self.endian == old(self).endian,
                n == bytes@.len(),
                start + n <= usize::MAX,
                k <= n,
                padded.len() >= start,
                padded.len() >= data0.len(),
                forall|i: int| 0 <= i < data0.len() ==> padded[i] == data0[i],
                forall|i: int| data0.len() <= i < padded.len() ==> padded[i] == 0u8,
                self.buf@.len() == if start + k > padded.len() { (start + k) as nat } else { padded.len() },
                forall|i: int| 0 <= i < self.buf@.len() ==> self.buf@[i] == if start <= i < start + k {
                    bytes@[i - start]
                } else {
                    padded[i]
                },
            decreases n - k,
        {
            let q: usize = start + k;
            if q < self.buf.len() {
                self.buf.set(q, bytes[k]);
            } else {
                self.buf.push(bytes[k]);
            }
            k = k + 1;
        }
        self.pos = self.pos + n as u64;
        assert(self.buf@ =~= cursor_write(data0, start as int, bytes@));
    }

    fn write_u8(&mut self, v: u8)
        requires
            old(self).position() + 1 <= usize::MAX,
        ensures
            final(self).wrote(*old(self), seq![v]),
    {
        let b: Vec<u8> = vec![v];
        assert(b@ =~= seq![v]);
        self.write_bytes(b.as_slice());
    }

    fn write_u16(&mut self, v: u16)
        requires
            old(self).position() + 2 <= usize::MAX,
        ensures
            final(self).wrote(*old(self), uint_bytes(v as int, 2, old(self).endian())),
    {
        let b = encode_uint(v as u64, 2, self.endian);
        self.write_bytes(b.as_slice());
    }

    fn write_u32(&mut self, v: u32)
        requires
            old(self).position() + 4 <= usize::MAX,
        ensures
            final(self).wrote(*old(self), uint_bytes(v as int, 4, old(self).endian())),
    {
        let b = encode_uint(v as u64, 4, self.endian);
        self.write_bytes(b.as_slice());
    }

    fn write_u64(&mut self, v: u64)
        requires
            old(self).position() + 8 <= usize::MAX,
        ensures
            final(self).wrote(*old(self), uint_bytes(v as int, 8, old(self).endian())),
    {
        let b = encode_uint(v, 8, self.endian);
        self.write_bytes(b.as_slice());
    }

    fn write_usize(&mut self, v: usize)
        requires
            old(self).position() + 8 <= usize::MAX,
        ensures
            final(self).wrote(*old(self), word_bytes(old(self).class(), old(self).endian(), v)),
    {
        match self.class {
            Class::Class32 => {
                let b = encode_uint((v as u32) as u64, 4, self.endian);
                self.write_bytes(b.as_slice());
            },
            Class::Class64 => {
                let b = encode_uint(v as u64, 8, self.endian);
                self.write_bytes(b.as_slice());
            },
        }
    }

    /// Writes the file header. The header's class and byte order must be
    /// those of the writer.
    pub fn write_ehdr(&mut self, ehdr: elf::Header)
        requires
            old(self).class() == ehdr.class,
            old(self).endian() == ehdr.endianness,
            old(self).position() + ehdr_size(ehdr.class) <= usize::MAX,
        ensures
            final(self).wrote(*old(self), ehdr_bytes(ehdr.class, ehdr.endianness, ehdr)),
    {
        broadcast use lemma_word_bytes_len;

        // e_ident
        let ghost start = *self;
        self.write_u8(0x7fu8);
        let ghost mut acc: Seq<u8> = seq![0x7fu8];
        let ghost mut snap = *self;
        self.write_u8(0x45u8);
        proof {
            lemma_wrote_then(start, snap, *self, acc, seq![0x45u8]);
            acc = acc + seq![0x45u8];
            snap = *self;
        }
        self.write_u8(0x4cu8);
        proof {
            lemma_wrote_then(start, snap, *self, acc, seq![0x4cu8]);
            acc = acc + seq![0x4cu8];
            snap = *self;
        }
        self.write_u8(0x46u8);
        proof {
            lemma_wrote_then(start, snap, *self, acc, seq![0x46u8]);
            acc = acc + seq![0x46u8];
            snap = *self;
        }
        let c = self.class.code();
        self.write_u8(c);
        proof {
            lemma_wrote_then(start, snap, *self, acc, seq![c]);
            acc = acc + seq![c];
            snap = *self;
        }
        let d = self.endian.code();
        self.write_u8(d);
        proof {
            lemma_wrote_then(start, snap, *self, acc, seq![d]);
            acc = acc + seq![d];
            snap = *self;
        }
        self.write_u8(1u8);
        proof {
            lemma_wrote_then(start, snap, *self, acc, seq![1u8]);
            acc = acc + seq![1u8];
            snap = *self;
        }
        self.write_u8(ehdr.os_abi);
        proof {
            lemma_wrote_then(start, snap, *self, acc, seq![ehdr.os_abi]);
            acc = acc + seq![ehdr.os_abi];
            snap = *self;
        }
        self.write_u8(ehdr.abi_version);
        proof {
            lemma_wrote_then(start, snap, *self, acc, seq![ehdr.abi_version]);
            acc = acc + seq![ehdr.abi_version];
            snap = *self;
        }
        assert(acc =~= seq![0x7fu8, 0x45u8, 0x4cu8, 0x46u8, c, d, 1u8, ehdr.os_abi, ehdr.abi_version]);
        let mut i: usize = 0;
        while i < 7
            invariant
                i <= 7,
                start.position() + ehdr_size(start.class()) <= usize::MAX,
                acc.len() == 9,
                self.wrote(start, acc + zeros(i as nat)),
            decreases 7 - i,
        {
            let ghost before = *self;
            self.write_u8(0u8);
            proof {
                lemma_wrote_then(start, before, *self, acc + zeros(i as nat), seq![0u8]);
                assert(acc + zeros(i as nat) + seq![0u8] =~= acc + zeros((i + 1) as nat));
            }
            i = i + 1;
        }
        proof {
            acc = acc + zeros(7);
            snap = *self;
        }
        // e_type, e_machine, e_version, e_entry, e_phoff, e_shoff, e_flags,
        // e_ehsize, e_phentsize, e_phnum, e_shentsize, e_shnum, e_shstrndx
        let t = ehdr.typ.code();
        self.write_u16(t);
        proof {
            lemma_wrote_then(start, snap, *self, acc, uint_bytes(t as int, 2, self.endian));
            acc = acc + uint_bytes(t as int, 2, self.endian);
            snap = *self;
        }
        self.write_u16(ehdr.machine);
        proof {
            lemma_wrote_then(start, snap, *self, acc, uint_bytes(ehdr.machine as int, 2, self.endian));
            acc = acc + uint_bytes(ehdr.machine as int, 2, self.endian);
            snap = *self;
        }
        self.write_u32(1);
        proof {
            lemma_wrote_then(start, snap, *self, acc, uint_bytes(1u32 as int, 4, self.endian));
            acc = acc + uint_bytes(1u32 as int, 4, self.endian);
            snap = *self;
        }
        self.write_usize(ehdr.entry as usize);
        proof {
            lemma_wrote_then(start, snap, *self, acc, word_bytes(self.class, self.endian, ehdr.entry));
            acc = acc + word_bytes(self.class, self.endian, ehdr.entry);
            snap = *self;
        }
        self.write_usize(ehdr.phoff);
        proof {
            lemma_wrote_then(start, snap, *self, acc, word_bytes(self.class, self.endian, ehdr.phoff));
            acc = acc + word_bytes(self.class, self.endian, ehdr.phoff);
            snap = *self;
        }
        self.write_usize(ehdr.shoff);
        proof {
            lemma_wrote_then(start, snap, *self, acc, word_bytes(self.class, self.endian, ehdr.shoff));
            acc = acc + word_bytes(self.class, self.endian, ehdr.shoff);
            snap = *self;
        }
        self.write_u32(ehdr.flags);
        proof {
            lemma_wrote_then(start, snap, *self, acc, uint_bytes(ehdr.flags as int, 4, self.endian));
            acc = acc + uint_bytes(ehdr.flags as int, 4, self.endian);
            snap = *self;
        }
        self.write_u16(ehdr.header_size);
        proof {
            lemma_wrote_then(start, snap, *self, acc, uint_bytes(ehdr.header_size as int, 2, self.endian));
            acc = acc + uint_bytes(ehdr.header_size as int, 2, self.endian);
            snap = *self;
        }
        self.write_u16(ehdr.phentsize as u16);
        proof {
            lemma_wrote_then(start, snap, *self, acc, uint_bytes(ehdr.phentsize as int, 2, self.endian));
            acc = acc + uint_bytes(ehdr.phentsize as int, 2, self.endian);
            snap = *self;
        }
        self.write_u16(ehdr.phnum as u16);
        proof {
            lemma_wrote_then(start, snap, *self, acc, uint_bytes(ehdr.phnum as int, 2, self.endian));
            acc = acc + uint_bytes(ehdr.phnum as int, 2, self.endian);
            snap = *self;
        }
        self.write_u16(ehdr.shentsize as u16);
        proof {
            lemma_wrote_then(start, snap, *self, acc, uint_bytes(ehdr.shentsize as int, 2, self.endian));
            acc = acc + uint_bytes(ehdr.shentsize as int, 2, self.endian);
            snap = *self;
        }
        self.write_u16(ehdr.shnum as u16);
        proof {
            lemma_wrote_then(start, snap, *self, acc, uint_bytes(ehdr.shnum as int, 2, self.endian));
            acc = acc + uint_bytes(ehdr.shnum as int, 2, self.endian);
            snap = *self;
        }
        self.write_u16(ehdr.shstrndx);
        proof {
            lemma_wrote_then(start, snap, *self, acc, uint_bytes(ehdr.shstrndx as int, 2, self.endian));
            acc = acc + uint_bytes(ehdr.shstrndx as int, 2, self.endian);
            snap = *self;
        }
        assert(acc == ehdr_bytes(ehdr.class, ehdr.endianness, ehdr));
    }

    /// Writes a section header.
    pub fn write_shdr(&mut self, shdr: &section::Header)
        requires
            old(self).position() + shdr_size(old(self).class()) <= usize::MAX,
        ensures
            final(self).wrote(*old(self), shdr_bytes(old(self).class(), old(self).endian(), *shdr)),
    {
        match self.class {
            Class::Class32 => {
                let ghost start = *self;
                self.write_u32(shdr.name as u32);
                let ghost mut acc: Seq<u8> = uint_bytes((shdr.name as u32) as int, 4, self.endian);
                let ghost mut snap = *self;
                let t = shdr.typ.code();
                self.write_u32(t);
                proof {
                    lemma_wrote_then(start, snap, *self, acc, uint_bytes(t as int, 4, self.endian));
                    acc = acc + uint_bytes(t as int, 4, self.endian);
                    snap = *self;
                }
                self.write_u32(shdr.flags.bits());
                proof {
                    lemma_wrote_then(start, snap, *self, acc, uint_bytes(shdr.flags.bits as int, 4, self.endian));
                    acc = acc + uint_bytes(shdr.flags.bits as int, 4, self.endian);
                    snap = *self;
                }
                self.write_usize(shdr.addr as usize);
                proof {
                    lemma_wrote_then(start, snap, *self, acc, word_bytes(self.class, self.endian, (shdr.addr as usize)));
                    acc = acc + word_bytes(self.class, self.endian, (shdr.addr as usize));
                    snap = *self;
                }
                self.write_usize(shdr.offset);
                proof {
                    lemma_wrote_then(start, snap, *self, acc, word_bytes(self.class, self.endian, shdr.offset));
                    acc = acc + word_bytes(self.class, self.endian, shdr.offset);
                    snap = *self;
                }
                self.write_u32(shdr.size as u32);
                proof {
                    lemma_wrote_then(start, snap, *self, acc, uint_bytes((shdr.size as u32) as int, 4, self.endian));
                    acc = acc + uint_bytes((shdr.size as u32) as int, 4, self.endian);
                    snap = *self;
                }
                self.write_u32(shdr.link);
                proof {
                    lemma_wrote_then(start, snap, *self, acc, uint_bytes(shdr.link as int, 4, self.endian));
                    acc = acc + uint_bytes(shdr.link as int, 4, self.endian);
                    snap = *self;
                }
                self.write_u32(shdr.info);
                proof {
                    lemma_wrote_then(start, snap, *self, acc, uint_bytes(shdr.info as int, 4, self.endian));
                    acc = acc + uint_bytes(shdr.info as int, 4, self.endian);
                    snap = *self;
                }
                self.write_u32(shdr.align as u32);
                proof {
                    lemma_wrote_then(start, snap, *self, acc, uint_bytes((shdr.align as u32) as int, 4, self.endian));
                    acc = acc + uint_bytes((shdr.align as u32) as int, 4, self.endian);
                    snap = *self;
                }
                self.write_u32(shdr.entry_size as u32);
                proof {
                    lemma_wrote_then(start, snap, *self, acc, uint_bytes((shdr.entry_size as u32) as int, 4, self.endian));
                    acc = acc + uint_bytes((shdr.entry_size as u32) as int, 4, self.endian);
                    snap = *self;
                }
                assert(acc =~= shdr_bytes(self.class, self.endian, *shdr));
            },
            Class::Class64 => {
                let ghost start = *self;
                self.write_u32(shdr.name as u32);
                let ghost mut acc: Seq<u8> = uint_bytes((shdr.name as u32) as int, 4, self.endian);
                let ghost mut snap = *self;
                let t = shdr.typ.code();
                self.write_u32(t);
                proof {
                    lemma_wrote_then(start, snap, *self, acc, uint_bytes(t as int, 4, self.endian));
                    acc = acc + uint_bytes(t as int, 4, self.endian);
                    snap = *self;
                }
                self.write_u64(shdr.flags.bits() as u64);
                proof {
                    lemma_wrote_then(start, snap, *self, acc, uint_bytes(shdr.flags.bits as int, 8, self.endian));
                    acc = acc + uint_bytes(shdr.flags.bits as int, 8, self.endian);
                    snap = *self;
                }
                self.write_usize(shdr.addr as usize);
                proof {
                    lemma_wrote_then(start, snap, *self, acc, word_bytes(self.class, self.endian, (shdr.addr as usize)));
                    acc = acc + word_bytes(self.class, self.endian, (shdr.addr as usize));
                    snap = *self;
                }
                self.write_usize(shdr.offset);
                proof {
                    lemma_wrote_then(start, snap, *self, acc, word_bytes(self.class, self.endian, shdr.offset));
                    acc = acc + word_bytes(self.class, self.endian, shdr.offset);
                    snap = *self;
                }
                self.write_u64(shdr.size as u64);
                proof {
                    lemma_wrote_then(start, snap, *self, acc, uint_bytes((shdr.size as u64) as int, 8, self.endian));
                    acc = acc + uint_bytes((shdr.size as u64) as int, 8, self.endian);
                    snap = *self;
                }
                self.write_u32(shdr.link);
                proof {
                    lemma_wrote_then(start, snap, *self, acc, uint_bytes(shdr.link as int, 4, self.endian));
                    acc = acc + uint_bytes(shdr.link as int, 4, self.endian);
                    snap = *self;
                }
                self.write_u32(shdr.info);
                proof {
                    lemma_wrote_then(start, snap, *self, acc, uint_bytes(shdr.info as int, 4, self.endian));
                    acc = acc + uint_bytes(shdr.info as int, 4, self.endian);
                    snap = *self;
                }
                self.write_u64(shdr.align);
                proof {
                    lemma_wrote_then(start, snap, *self, acc, uint_bytes(shdr.align as int, 8, self.endian));
                    acc = acc + uint_bytes(shdr.align as int, 8, self.endian);
                    snap = *self;
                }
                self.write_u64(shdr.entry_size);
                proof {
                    lemma_wrote_then(start, snap, *self, acc, uint_bytes(shdr.entry_size as int, 8, self.endian));
                    acc = acc + uint_bytes(shdr.entry_size as int, 8, self.endian);
                    snap = *self;
                }
                assert(acc =~= shdr_bytes(self.class, self.endian, *shdr));
            },
        }
    }

    /// Writes the all-zero section header.
    pub fn write_null_section(&mut self)
        requires
            old(self).position() + shdr_size(old(self).class()) <= usize::MAX,
        ensures
            final(self).wrote(
                *old(self),
                shdr_bytes(old(self).class(), old(self).endian(), null_section_header()),
            ),
            final(self).wrote(*old(self), zeros(shdr_size(old(self).class()))),
    {
        proof {
            lemma_null_section_is_zeros(self.class, self.endian);
        }
        self.write_shdr(
            &section::Header {
                name: 0,
                typ: section::Type::Null,
                flags: section::Flags::empty(),
                addr: 0,
                offset: 0,
                size: 0,
                link: 0,
                info: 0,
                align: 0,
                entry_size: 0,
            },
        );
    }

    /// Writes a program header.
    pub fn write_phdr(&mut self, phdr: &segment::Header)
        requires
            old(self).position() + phdr_size(old(self).class()) <= usize::MAX,
        ensures
            final(self).wrote(*old(self), phdr_bytes(old(self).class(), old(self).endian(), *phdr)),
    {
        match self.class {
            Class::Class32 => {
                let ghost start = *self;
                let t = phdr.segment_type.code();
                self.write_u32(t);
                let ghost mut acc: Seq<u8> = uint_bytes(t as int, 4, self.endian);
                let ghost mut snap = *self;
                self.write_usize(phdr.offset as usize);
                proof {
                    lemma_wrote_then(start, snap, *self, acc, word_bytes(self.class, self.endian, (phdr.offset as usize)));
                    acc = acc + word_bytes(self.class, self.endian, (phdr.offset as usize));
                    snap = *self;
                }
                self.write_usize(phdr.virtual_addr as usize);
                proof {
                    lemma_wrote_then(start, snap, *self, acc, word_bytes(self.class, self.endian, (phdr.virtual_addr as usize)));
                    acc = acc + word_bytes(self.class, self.endian, (phdr.virtual_addr as usize));
                    snap = *self;
                }
                self.write_usize(phdr.physical_addr as usize);
                proof {
                    lemma_wrote_then(start, snap, *self, acc, word_bytes(self.class, self.endian, (phdr.physical_addr as usize)));
                    acc = acc + word_bytes(self.class, self.endian, (phdr.physical_addr as usize));
                    snap = *self;
                }
                self.write_u32(phdr.file_size as u32);
                proof {
                    lemma_wrote_then(start, snap, *self, acc, uint_bytes((phdr.file_size as u32) as int, 4, self.endian));
                    acc = acc + uint_bytes((phdr.file_size as u32) as int, 4, self.endian);
                    snap = *self;
                }
                self.write_u32(phdr.mem_size as u32);
                proof {
                    lemma_wrote_then(start, snap, *self, acc, uint_bytes((phdr.mem_size as u32) as int, 4, self.endian));
                    acc = acc + uint_bytes((phdr.mem_size as u32) as int, 4, self.endian);
                    snap = *self;
                }
                self.write_u32(phdr.flags.bits());
                proof {
                    lemma_wrote_then(start, snap, *self, acc, uint_bytes(phdr.flags.bits as int, 4, self.endian));
                    acc = acc + uint_bytes(phdr.flags.bits as int, 4, self.endian);
                    snap = *self;
                }
                self.write_u32(phdr.align as u32);
                proof {
                    lemma_wrote_then(start, snap, *self, acc, uint_bytes((phdr.align as u32) as int, 4, self.endian));
                    acc = acc + uint_bytes((phdr.align as u32) as int, 4, self.endian);
                    snap = *self;
                }
                assert(acc =~= phdr_bytes(self.class, self.endian, *phdr));
            },
            Class::Class64 => {
                let ghost start = *self;
                let t = phdr.segment_type.code();
                self.write_u32(t);
                let ghost mut acc: Seq<u8> = uint_bytes(t as int, 4, self.endian);
                let ghost mut snap = *self;
                self.write_u32(phdr.flags.bits());
                proof {
                    lemma_wrote_then(start, snap, *self, acc, uint_bytes(phdr.flags.bits as int, 4, self.endian));
                    acc = acc + uint_bytes(phdr.flags.bits as int, 4, self.endian);
                    snap = *self;
                }
                self.write_usize(phdr.offset as usize);
                proof {
                    lemma_wrote_then(start, snap, *self, acc, word_bytes(self.class, self.endian, (phdr.offset as usize)));
                    acc = acc + word_bytes(self.class, self.endian, (phdr.offset as usize));
                    snap = *self;
                }
                self.write_usize(phdr.virtual_addr as usize);
                proof {
                    lemma_wrote_then(start, snap, *self, acc, word_bytes(self.class, self.endian, (phdr.virtual_addr as usize)));
                    acc = acc + word_bytes(self.class, self.endian, (phdr.virtual_addr as usize));
                    snap = *self;
                }
                self.write_usize(phdr.physical_addr as usize);
                proof {
                    lemma_wrote_then(start, snap, *self, acc, word_bytes(self.class, self.endian, (phdr.physical_addr as usize)));
                    acc = acc + word_bytes(self.class, self.endian, (phdr.physical_addr as usize));
                    snap = *self;
                }
                self.write_u64(phdr.file_size);
                proof {
                    lemma_wrote_then(start, snap, *self, acc, uint_bytes(phdr.file_size as int, 8, self.endian));
                    acc = acc + uint_bytes(phdr.file_size as int, 8, self.endian);
                    snap = *self;
                }
                self.write_u64(phdr.mem_size);
                proof {
                    lemma_wrote_then(start, snap, *self, acc, uint_bytes(phdr.mem_size as int, 8, self.endian));
                    acc = acc + uint_bytes(phdr.mem_size as int, 8, self.endian);
                    snap = *self;
                }
                self.write_u64(phdr.align);
                proof {
                    lemma_wrote_then(start, snap, *self, acc, uint_bytes(phdr.align as int, 8, self.endian));
                    acc = acc + uint_bytes(phdr.align as int, 8, self.endian);
                    snap = *self;
                }
                assert(acc =~= phdr_bytes(self.class, self.endian, *phdr));
            },
        }
    }

    /// `st_info` of a symbol: the binding shifted into the high nibble plus
    /// the low nibble of the type.
    fn sym_info_byte(sym: &Sym) -> (r: u8)
        ensures
            r == sym_info(*sym),
    {
        let b: u8 = sym.bind.code();
        let t: u8 = sym.typ.code();
        assert((b <= 2 && t <= 6) ==> ((b << 4u8) + (t & 0xfu8) == b * 16 + t)) by (bit_vector);
        (b << 4u8) + (t & 0xfu8)
    }

    /// Writes a symbol table entry.
    pub fn write_sym(&mut self, sym: &Sym)
        requires
            old(self).position() + sym_size(old(self).class()) <= usize::MAX,
        ensures
            final(self).wrote(*old(self), sym_bytes(old(self).class(), old(self).endian(), *sym)),
    {
        match self.class {
            Class::Class32 => {
                let ghost start = *self;
                self.write_u32(sym.name);
                let ghost mut acc: Seq<u8> = uint_bytes(sym.name as int, 4, self.endian);
                let ghost mut snap = *self;
                self.write_usize(sym.value);
                proof {
                    lemma_wrote_then(start, snap, *self, acc, word_bytes(self.class, self.endian, sym.value));
                    acc = acc + word_bytes(self.class, self.endian, sym.value);
                    snap = *self;
                }
                self.write_usize(sym.size);
                proof {
                    lemma_wrote_then(start, snap, *self, acc, word_bytes(self.class, self.endian, sym.size));
                    acc = acc + word_bytes(self.class, self.endian, sym.size);
                    snap = *self;
                }
                let info = Self::sym_info_byte(sym);
                self.write_u8(info);
                proof {
                    lemma_wrote_then(start, snap, *self, acc, seq![info]);
                    acc = acc + seq![info];
                    snap = *self;
                }
                self.write_u8(sym.other);
                proof {
                    lemma_wrote_then(start, snap, *self, acc, seq![sym.other]);
                    acc = acc + seq![sym.other];
                    snap = *self;
                }
                self.write_u16(sym.shndx);
                proof {
                    lemma_wrote_then(start, snap, *self, acc, uint_bytes(sym.shndx as int, 2, self.endian));
                    acc = acc + uint_bytes(sym.shndx as int, 2, self.endian);
                    snap = *self;
                }
                assert(acc =~= sym_bytes(self.class, self.endian, *sym));
            },
            Class::Class64 => {
                let ghost start = *self;
                self.write_u32(sym.name);
                let ghost mut acc: Seq<u8> = uint_bytes(sym.name as int, 4, self.endian);
                let ghost mut snap = *self;
                let info = Self::sym_info_byte(sym);
                self.write_u8(info);
                proof {
                    lemma_wrote_then(start, snap, *self, acc, seq![info]);
                    acc = acc + seq![info];
                    snap = *self;
                }
                self.write_u8(sym.other);
                proof {
                    lemma_wrote_then(start, snap, *self, acc, seq![sym.other]);
                    acc = acc + seq![sym.other];
                    snap = *self;
                }
                self.write_u16(sym.shndx);
                proof {
                    lemma_wrote_then(start, snap, *self, acc, uint_bytes(sym.shndx as int, 2, self.endian));
                    acc = acc + uint_bytes(sym.shndx as int, 2, self.endian);
                    snap = *self;
                }
                self.write_usize(sym.value);
                proof {
                    lemma_wrote_then(start, snap, *self, acc, word_bytes(self.class, self.endian, sym.value));
                    acc = acc + word_bytes(self.class, self.endian, sym.value);
                    snap = *self;
                }
                self.write_usize(sym.size);
                proof {
                    lemma_wrote_then(start, snap, *self, acc, word_bytes(self.class, self.endian, sym.size));
                    acc = acc + word_bytes(self.class, self.endian, sym.size);
                    snap = *self;
                }
                assert(acc =~= sym_bytes(self.class, self.endian, *sym));
            },
        }
    }

    /// Pads with zero bytes up to the next multiple of `align` (1 where
    /// `align` is 0) and returns the number of bytes written. The next
    /// multiple is computed as `(pos + align - 1) & !(align - 1)`, which is
    /// exact for powers of two (see `lemma_align_up_pow2`).
    pub fn align(&mut self, align: u64) -> (r: usize)
        requires
            old(self).position() + align_mask(align) <= u64::MAX,
            align_up(old(self).position(), align) >= old(self).position(),
            align_up(old(self).position(), align) <= usize::MAX,
        ensures
            r == align_up(old(self).position(), align) - old(self).position(),
            r == 0 ==> final(self).moved(*old(self), old(self).position() as int),
            r > 0 ==> final(self).wrote(*old(self), zeros(r as nat)),
    {
        let align: u64 = if align > 1 { align } else { 1 };
        let t: u64 = self.tell();
        let aligned: u64 = (t + (align - 1)) & !(align - 1);
        let padding: u64 = aligned - self.tell();
        let ghost start = *self;
        let mut k: u64 = 0;
        while k < padding
            invariant
                k <= padding,
                start.position() + padding <= usize::MAX,
                k == 0 ==> self.moved(start, start.position() as int),
                k > 0 ==> self.wrote(start, zeros(k as nat)),
            decreases padding - k,
        {
            let ghost before = *self;
            self.write_u8(0u8);
            proof {
                if k > 0 {
                    lemma_wrote_then(start, before, *self, zeros(k as nat), seq![0u8]);
                }
                assert(zeros(k as nat) + seq![0u8] =~= zeros((k + 1) as nat));
                assert(seq![0u8] =~= zeros(1));
            }
            k = k + 1;
        }
        padding as usize
    }

    /// The size of a file header in the writer's class.
    pub fn elf_header_size(&self) -> (r: usize)
        ensures
            r == ehdr_size(self.class()),
    {
        match self.class {
            Class::Class32 => 52,
            Class::Class64 => 64,
        }
    }

    /// The size of a section header in the writer's class.
    pub fn shentsize(&self) -> (r: usize)
        ensures
            r == shdr_size(self.class()),
    {
        match self.class {
            Class::Class32 => 40,
            Class::Class64 => 64,
        }
    }

    /// The size of a program header in the writer's class.
    pub fn phentsize(&self) -> (r: usize)
        ensures
            r == phdr_size(self.class()),
    {
        match self.class {
            Class::Class32 => 32,
            Class::Class64 => 56,
        }
    }

    /// The size of a symbol table entry in the writer's class.
    pub fn symsize(&self) -> (r: usize)
        ensures
            r == sym_size(self.class()),
    {
        match self.class {
            Class::Class32 => 16,
            Class::Class64 => 24,
        }
    }
}

} // verus!
