//! Reading an ELF object from its bytes: the file header, the section and
//! program header tables and the symbol table, in either class and byte
//! order. A field that does not name a known value, or that reaches past
//! the end of the bytes, makes the file unreadable.
use vstd::prelude::*;
use vstd::arithmetic::power::pow;
use crate::bytes::{le_bytes, le_value, lemma_le_bytes_len, lemma_le_bytes_roundtrip, uint_bytes};
use crate::elf::{self, class_of_code, endianness_of_code, Class, ElfFile, Endianness};
use crate::writer::{
    ehdr_bytes, ehdr_size, lemma_write_reads_back, phdr_bytes, phdr_size, shdr_bytes, shdr_size,
    sym_bytes, sym_info, sym_size, word_bytes, Writer,
};
use crate::section;
use crate::segment;
use crate::symbol::{bind_of_code, sym_type_of_code, Sym, SymBind, SymType};

verus! {

/// The value of the `n` bytes of `d` at `off`, in byte order `e`.
pub open spec fn uint_val(d: Seq<u8>, off: int, n: nat, e: Endianness) -> int {
    let s = d.subrange(off, off + n);
    match e {
        Endianness::Little => le_value(s),
        Endianness::Big => le_value(s.reverse()),
    }
}

/// A value of `n` bytes is below `256^n`.
pub proof fn lemma_le_value_bound(s: Seq<u8>)
    ensures
        0 <= le_value(s) < pow(256, s.len()),
    decreases s.len(),
{
    reveal(pow);
    if s.len() > 0 {
        lemma_le_value_bound(s.drop_first());
    }
}

proof fn lemma_pow256_8()
    ensures
        pow(256, 8) == 0x1_0000_0000_0000_0000int,
{
    reveal_with_fuel(pow, 9);
}

/// Reads the `n` bytes of `d` at `off` as an unsigned value in byte order
/// `e`; `None` where they reach past the end of `d`.
pub fn read_uint(d: &[u8], off: usize, n: usize, e: Endianness) -> (r: Option<u64>)
    requires
        n <= 8,
    ensures
        match r {
            None => off + n > d@.len(),
            Some(v) => off + n <= d@.len() && v == uint_val(d@, off as int, n as nat, e),
        },
{
    if off > d.len() || n > d.len() - off {
        return None;
    }
    let ghost s = d@.subrange(off as int, off + n);
    proof {
        vstd::arithmetic::power::lemma_pow_increases(256, n as nat, 8);
        lemma_pow256_8();
    }
    let mut acc: u64 = 0;
    match e {
        Endianness::Little => {
            let mut j: usize = n;
            assert(s.subrange(n as int, n as int) =~= Seq::<u8>::empty());
            while j > 0
                invariant
                    j <= n <= 8,
                    off + n <= d@.len() <= usize::MAX,
                    s == d@.subrange(off as int, off + n),
                    acc == le_value(s.subrange(j as int, n as int)),
                    pow(256, n as nat) <= pow(256, 8),
                    pow(256, 8) == 0x1_0000_0000_0000_0000int,
                decreases j,
            {
                let ghost t = s.subrange(j as int, n as int);
                j = j - 1;
                let b = d[off + j];
                let ghost t2 = s.subrange(j as int, n as int);
                assert(t2.drop_first() =~= t);
                assert(t2[0] == b);
                proof {
                    lemma_le_value_bound(t2);
                    vstd::arithmetic::power::lemma_pow_increases(256, t2.len(), n as nat);
                }
                acc = b as u64 + 256 * acc;
            }
            assert(s.subrange(0, n as int) =~= s);
        },
        Endianness::Big => {
            let mut j: usize = 0;
            assert(s.subrange(0, 0).reverse() =~= Seq::<u8>::empty());
            while j < n
                invariant
                    j <= n <= 8,
                    off + n <= d@.len() <= usize::MAX,
                    s == d@.subrange(off as int, off + n),
                    acc == le_value(s.subrange(0, j as int).reverse()),
                    pow(256, n as nat) <= pow(256, 8),
                    pow(256, 8) == 0x1_0000_0000_0000_0000int,
                decreases n - j,
            {
                let b = d[off + j];
                let ghost t = s.subrange(0, j as int).reverse();
                let ghost t2 = s.subrange(0, j + 1).reverse();
                assert(t2.drop_first() =~= t);
                assert(t2[0] == b);
                proof {
                    lemma_le_value_bound(t2);
                    vstd::arithmetic::power::lemma_pow_increases(256, t2.len(), n as nat);
                }
                acc = b as u64 + 256 * acc;
                j = j + 1;
            }
            assert(s.subrange(0, n as int) =~= s);
        },
    }
    Some(acc)
}

/// The length of a machine word of the class.
pub open spec fn word_len(c: Class) -> nat {
    match c {
        Class::Class32 => 4,
        Class::Class64 => 8,
    }
}

/// The file header at the start of `d`: the magic bytes, then a known
/// class and byte order in `e_ident`, the whole header present, a known
/// file type, and an entry point and table offsets that fit in a machine
/// word; `None` otherwise. The version fields are not checked.
pub open spec fn header_at(d: Seq<u8>) -> Option<elf::Header> {
    if d.len() < 16 || d[0] != 0x7fu8 || d[1] != 0x45u8 || d[2] != 0x4cu8 || d[3] != 0x46u8 {
        None
    } else {
        match (class_of_code(d[4]), endianness_of_code(d[5])) {
            (Some(c), Some(e)) => {
                let w = word_len(c) as int;
                if d.len() < ehdr_size(c) {
                    None
                } else {
                    let typ = elf::type_of_code(uint_val(d, 16, 2, e) as u16);
                    let entry = uint_val(d, 24, word_len(c), e);
                    let phoff = uint_val(d, 24 + w, word_len(c), e);
                    let shoff = uint_val(d, 24 + 2 * w, word_len(c), e);
                    if typ is None || entry > usize::MAX || phoff > usize::MAX || shoff > usize::MAX {
                        None
                    } else {
                        Some(
                            elf::Header {
                                class: c,
                                endianness: e,
                                os_abi: d[7],
                                abi_version: d[8],
                                typ: typ->0,
                                machine: uint_val(d, 18, 2, e) as u16,
                                entry: entry as usize,
                                phoff: phoff as usize,
                                shoff: shoff as usize,
                                flags: uint_val(d, 24 + 3 * w, 4, e) as u32,
                                header_size: uint_val(d, 28 + 3 * w, 2, e) as u16,
                                phentsize: uint_val(d, 30 + 3 * w, 2, e) as u16,
                                phnum: uint_val(d, 32 + 3 * w, 2, e) as u16,
                                shentsize: uint_val(d, 34 + 3 * w, 2, e) as u16,
                                shnum: uint_val(d, 36 + 3 * w, 2, e) as u16,
                                shstrndx: uint_val(d, 38 + 3 * w, 2, e) as u16,
                            },
                        )
                    }
                }
            },
            _ => None,
        }
    }
}

/// Reads the `n` bytes at `off`, known to be within `d`.
fn field(d: &[u8], off: usize, n: usize, e: Endianness) -> (r: u64)
    requires
        n <= 8,
        off + n <= d@.len(),
    ensures
        r == uint_val(d@, off as int, n as nat, e),
{
    match read_uint(d, off, n, e) {
        Some(v) => v,
        None => 0,
    }
}

/// Reads the file header at the start of `d`.
pub fn read_header(d: &[u8]) -> (r: Option<elf::Header>)
    ensures
        r == header_at(d@),
{
    if d.len() < 16 || d[0] != 0x7fu8 || d[1] != 0x45u8 || d[2] != 0x4cu8 || d[3] != 0x46u8 {
        return None;
    }
    let c = match Class::from_code(d[4]) {
        Some(c) => c,
        None => {
            return None;
        },
    };
    let e = match Endianness::from_code(d[5]) {
        Some(e) => e,
        None => {
            return None;
        },
    };
    let w: usize = match c {
        Class::Class32 => 4,
        Class::Class64 => 8,
    };
    let size: usize = match c {
        Class::Class32 => 52,
        Class::Class64 => 64,
    };
    if d.len() < size {
        return None;
    }
    let typ = match elf::Type::from_code(field(d, 16, 2, e) as u16) {
        Some(t) => t,
        None => {
            return None;
        },
    };
    let entry = field(d, 24, w, e);
    let phoff = field(d, 24 + w, w, e);
    let shoff = field(d, 24 + 2 * w, w, e);
    if entry > usize::MAX as u64 || phoff > usize::MAX as u64 || shoff > usize::MAX as u64 {
        return None;
    }
    Some(
        elf::Header {
            class: c,
            endianness: e,
            os_abi: d[7],
            abi_version: d[8],
            typ,
            machine: field(d, 18, 2, e) as u16,
            entry: entry as usize,
            phoff: phoff as usize,
            shoff: shoff as usize,
            flags: field(d, 24 + 3 * w, 4, e) as u32,
            header_size: field(d, 28 + 3 * w, 2, e) as u16,
            phentsize: field(d, 30 + 3 * w, 2, e) as u16,
            phnum: field(d, 32 + 3 * w, 2, e) as u16,
            shentsize: field(d, 34 + 3 * w, 2, e) as u16,
            shnum: field(d, 36 + 3 * w, 2, e) as u16,
            shstrndx: field(d, 38 + 3 * w, 2, e) as u16,
        },
    )
}

/// The section header at `off` of `d`: all of it within `d`, a known
/// section type, flags that fit in 32 bits, and an offset and size that fit
/// in a machine word; `None` otherwise.
pub open spec fn shdr_at(d: Seq<u8>, off: int, c: Class, e: Endianness) -> Option<section::Header> {
    let w = word_len(c) as int;
    if off < 0 || off + shdr_size(c) > d.len() {
        None
    } else {
        let typ = section::type_of_code(uint_val(d, off + 4, 4, e) as u32);
        let flags = uint_val(d, off + 8, word_len(c), e);
        let offset = uint_val(d, off + 8 + 2 * w, word_len(c), e);
        let size = uint_val(d, off + 8 + 3 * w, word_len(c), e);
        if typ is None || flags > u32::MAX || offset > usize::MAX || size > usize::MAX {
            None
        } else {
            Some(
                section::Header {
                    name: uint_val(d, off, 4, e) as usize,
                    typ: typ->0,
                    flags: section::Flags { bits: flags as u32 },
                    addr: uint_val(d, off + 8 + w, word_len(c), e) as u64,
                    offset: offset as usize,
                    size: size as usize,
                    link: uint_val(d, off + 8 + 4 * w, 4, e) as u32,
                    info: uint_val(d, off + 12 + 4 * w, 4, e) as u32,
                    align: uint_val(d, off + 16 + 4 * w, word_len(c), e) as u64,
                    entry_size: uint_val(d, off + 16 + 5 * w, word_len(c), e) as u64,
                },
            )
        }
    }
}

/// Reads the section header at `off` of `d`.
pub fn read_shdr(d: &[u8], off: usize, c: Class, e: Endianness) -> (r: Option<section::Header>)
    ensures
        r == shdr_at(d@, off as int, c, e),
{
    let w: usize = match c {
        Class::Class32 => 4,
        Class::Class64 => 8,
    };
    let size: usize = match c {
        Class::Class32 => 40,
        Class::Class64 => 64,
    };
    if off > d.len() || size > d.len() - off {
        return None;
    }
    let typ = match section::Type::from_code(field(d, off + 4, 4, e) as u32) {
        Some(t) => t,
        None => {
            return None;
        },
    };
    let flags = field(d, off + 8, w, e);
    let offset = field(d, off + 8 + 2 * w, w, e);
    let sz = field(d, off + 8 + 3 * w, w, e);
    if flags > u32::MAX as u64 || offset > usize::MAX as u64 || sz > usize::MAX as u64 {
        return None;
    }
    Some(
        section::Header {
            name: field(d, off, 4, e) as usize,
            typ,
            flags: section::Flags::from_bits_retain(flags as u32),
            addr: field(d, off + 8 + w, w, e),
            offset: offset as usize,
            size: sz as usize,
            link: field(d, off + 8 + 4 * w, 4, e) as u32,
            info: field(d, off + 12 + 4 * w, 4, e) as u32,
            align: field(d, off + 16 + 4 * w, w, e),
            entry_size: field(d, off + 16 + 5 * w, w, e),
        },
    )
}

/// The program header at `off` of `d`, with the fields in the order of the
/// class: all of it within `d` and a known segment type; `None` otherwise.
pub open spec fn phdr_at(d: Seq<u8>, off: int, c: Class, e: Endianness) -> Option<segment::Header> {
    if off < 0 || off + phdr_size(c) > d.len() {
        None
    } else {
        match segment::type_of_code(uint_val(d, off, 4, e) as u32) {
            None => None,
            Some(t) => Some(
                match c {
                    Class::Class32 => segment::Header {
                        segment_type: t,
                        offset: uint_val(d, off + 4, 4, e) as u64,
                        virtual_addr: uint_val(d, off + 8, 4, e) as u64,
                        physical_addr: uint_val(d, off + 12, 4, e) as u64,
                        file_size: uint_val(d, off + 16, 4, e) as u64,
                        mem_size: uint_val(d, off + 20, 4, e) as u64,
                        flags: segment::Flags { bits: uint_val(d, off + 24, 4, e) as u32 },
                        align: uint_val(d, off + 28, 4, e) as u64,
                    },
                    Class::Class64 => segment::Header {
                        segment_type: t,
                        flags: segment::Flags { bits: uint_val(d, off + 4, 4, e) as u32 },
                        offset: uint_val(d, off + 8, 8, e) as u64,
                        virtual_addr: uint_val(d, off + 16, 8, e) as u64,
                        physical_addr: uint_val(d, off + 24, 8, e) as u64,
                        file_size: uint_val(d, off + 32, 8, e) as u64,
                        mem_size: uint_val(d, off + 40, 8, e) as u64,
                        align: uint_val(d, off + 48, 8, e) as u64,
                    },
                },
            ),
        }
    }
}

/// Reads the program header at `off` of `d`.
pub fn read_phdr(d: &[u8], off: usize, c: Class, e: Endianness) -> (r: Option<segment::Header>)
    ensures
        r == phdr_at(d@, off as int, c, e),
{
    let size: usize = match c {
        Class::Class32 => 32,
        Class::Class64 => 56,
    };
    if off > d.len() || size > d.len() - off {
        return None;
    }
    let t = match segment::Type::from_code(field(d, off, 4, e) as u32) {
        Some(t) => t,
        None => {
            return None;
        },
    };
    match c {
        Class::Class32 => Some(
            segment::Header {
                segment_type: t,
                offset: field(d, off + 4, 4, e),
                virtual_addr: field(d, off + 8, 4, e),
                physical_addr: field(d, off + 12, 4, e),
                file_size: field(d, off + 16, 4, e),
                mem_size: field(d, off + 20, 4, e),
                flags: segment::Flags::from_bits_retain(field(d, off + 24, 4, e) as u32),
                align: field(d, off + 28, 4, e),
            },
        ),
        Class::Class64 => Some(
            segment::Header {
                segment_type: t,
                flags: segment::Flags::from_bits_retain(field(d, off + 4, 4, e) as u32),
                offset: field(d, off + 8, 8, e),
                virtual_addr: field(d, off + 16, 8, e),
                physical_addr: field(d, off + 24, 8, e),
                file_size: field(d, off + 32, 8, e),
                mem_size: field(d, off + 40, 8, e),
                align: field(d, off + 48, 8, e),
            },
        ),
    }
}

/// The symbol table entry at `off` of `d`, with the fields in the order of
/// the class: all of it within `d`, a known binding (the high nibble of
/// `st_info`) and type (the low nibble), and a value and size that fit in a
/// machine word; `None` otherwise.
pub open spec fn sym_at(d: Seq<u8>, off: int, c: Class, e: Endianness) -> Option<Sym> {
    if off < 0 || off + sym_size(c) > d.len() {
        None
    } else {
        let info: u8 = match c {
            Class::Class32 => d[off + 12],
            Class::Class64 => d[off + 4],
        };
        let other: u8 = match c {
            Class::Class32 => d[off + 13],
            Class::Class64 => d[off + 5],
        };
        let shndx = match c {
            Class::Class32 => uint_val(d, off + 14, 2, e),
            Class::Class64 => uint_val(d, off + 6, 2, e),
        };
        let value = match c {
            Class::Class32 => uint_val(d, off + 4, 4, e),
            Class::Class64 => uint_val(d, off + 8, 8, e),
        };
        let size = match c {
            Class::Class32 => uint_val(d, off + 8, 4, e),
            Class::Class64 => uint_val(d, off + 16, 8, e),
        };
        let bind = bind_of_code(info / 16);
        let typ = sym_type_of_code(info % 16);
        if bind is None || typ is None || value > usize::MAX || size > usize::MAX {
            None
        } else {
            Some(
                Sym {
                    name: uint_val(d, off, 4, e) as u32,
                    bind: bind->0,
                    typ: typ->0,
                    other,
                    shndx: shndx as u16,
                    value: value as usize,
                    size: size as usize,
                },
            )
        }
    }
}

/// Reads the symbol table entry at `off` of `d`.
pub fn read_sym(d: &[u8], off: usize, c: Class, e: Endianness) -> (r: Option<Sym>)
    ensures
        r == sym_at(d@, off as int, c, e),
{
    let size: usize = match c {
        Class::Class32 => 16,
        Class::Class64 => 24,
    };
    if off > d.len() || size > d.len() - off {
        return None;
    }
    let (info, other, shndx, value, sz) = match c {
        Class::Class32 => (
            d[off + 12],
            d[off + 13],
            field(d, off + 14, 2, e),
            field(d, off + 4, 4, e),
            field(d, off + 8, 4, e),
        ),
        Class::Class64 => (
            d[off + 4],
            d[off + 5],
            field(d, off + 6, 2, e),
            field(d, off + 8, 8, e),
            field(d, off + 16, 8, e),
        ),
    };
    let bind = match SymBind::from_code(info / 16) {
        Some(b) => b,
        None => {
            return None;
        },
    };
    let typ = match SymType::from_code(info % 16) {
        Some(t) => t,
        None => {
            return None;
        },
    };
    if value > usize::MAX as u64 || sz > usize::MAX as u64 {
        return None;
    }
    Some(
        Sym {
            name: field(d, off, 4, e) as u32,
            bind,
            typ,
            other,
            shndx: shndx as u16,
            value: value as usize,
            size: sz as usize,
        },
    )
}

/// The `n` entries of a table at `start`, one every `stride` bytes, each
/// read by `entry` from its offset; `None` where one cannot be read.
pub open spec fn entries_at<T>(start: int, stride: nat, n: nat, entry: spec_fn(int) -> Option<T>) -> Option<Seq<T>>
    decreases n,
{
    if n == 0 {
        Some(Seq::empty())
    } else {
        match entries_at(start, stride, (n - 1) as nat, entry) {
            None => None,
            Some(s) => match entry(start + (n - 1) * stride) {
                None => None,
                Some(x) => Some(s.push(x)),
            },
        }
    }
}

proof fn lemma_entries_none_stays<T>(start: int, stride: nat, k: nat, n: nat, entry: spec_fn(int) -> Option<T>)
    requires
        k <= n,
        entries_at(start, stride, k, entry) is None,
    ensures
        entries_at(start, stride, n, entry) is None,
    decreases n - k,
{
    if k < n {
        lemma_entries_none_stays(start, stride, k, (n - 1) as nat, entry);
    }
}

proof fn lemma_next_entry(start: int, i: int, stride: int)
    requires
        0 <= i,
        0 <= stride,
    ensures
        start + (i + 1) * stride == start + i * stride + stride,
{
    assert((i + 1) * stride == i * stride + stride) by (nonlinear_arith);
}

/// Reads the `n` section headers at `off`.
fn read_shdrs(d: &[u8], off: usize, n: u16, c: Class, e: Endianness) -> (r: Option<Vec<section::Header>>)
    ensures
        match r {
            None => entries_at(off as int, shdr_size(c), n as nat, |o: int| shdr_at(d@, o, c, e)) is None,
            Some(v) => entries_at(off as int, shdr_size(c), n as nat, |o: int| shdr_at(d@, o, c, e)) == Some(v@),
        },
{
    let ghost f = |o: int| shdr_at(d@, o, c, e);
    let size: usize = match c {
        Class::Class32 => 40,
        Class::Class64 => 64,
    };
    let mut v: Vec<section::Header> = Vec::new();
    let mut pos: usize = off;
    let mut i: u16 = 0;
    while i < n
        invariant
            i <= n,
            size == shdr_size(c),
            f == (|o: int| shdr_at(d@, o, c, e)),
            pos == off + i * size,
            d@.len() == d.len(),
            entries_at(off as int, shdr_size(c), i as nat, f) == Some(v@),
        decreases n - i,
    {
        match read_shdr(d, pos, c, e) {
            Some(h) => {
                v.push(h);
            },
            None => {
                proof {
                    lemma_entries_none_stays(off as int, shdr_size(c), (i + 1) as nat, n as nat, f);
                }
                return None;
            },
        }
        proof {
            lemma_next_entry(off as int, i as int, size as int);
        }
        pos = pos + size;
        i = i + 1;
    }
    Some(v)
}

/// Reads the `n` program headers at `off`.
fn read_phdrs(d: &[u8], off: usize, n: u16, c: Class, e: Endianness) -> (r: Option<Vec<segment::Header>>)
    ensures
        match r {
            None => entries_at(off as int, phdr_size(c), n as nat, |o: int| phdr_at(d@, o, c, e)) is None,
            Some(v) => entries_at(off as int, phdr_size(c), n as nat, |o: int| phdr_at(d@, o, c, e)) == Some(v@),
        },
{
    let ghost f = |o: int| phdr_at(d@, o, c, e);
    let size: usize = match c {
        Class::Class32 => 32,
        Class::Class64 => 56,
    };
    let mut v: Vec<segment::Header> = Vec::new();
    let mut pos: usize = off;
    let mut i: u16 = 0;
    while i < n
        invariant
            i <= n,
            size == phdr_size(c),
            f == (|o: int| phdr_at(d@, o, c, e)),
            pos == off + i * size,
            d@.len() == d.len(),
            entries_at(off as int, phdr_size(c), i as nat, f) == Some(v@),
        decreases n - i,
    {
        match read_phdr(d, pos, c, e) {
            Some(h) => {
                v.push(h);
            },
            None => {
                proof {
                    lemma_entries_none_stays(off as int, phdr_size(c), (i + 1) as nat, n as nat, f);
                }
                return None;
            },
        }
        proof {
            lemma_next_entry(off as int, i as int, size as int);
        }
        pos = pos + size;
        i = i + 1;
    }
    Some(v)
}

/// Reads the `n` symbol table entries at `off`.
fn read_syms(d: &[u8], off: usize, n: usize, c: Class, e: Endianness) -> (r: Option<Vec<Sym>>)
    ensures
        match r {
            None => entries_at(off as int, sym_size(c), n as nat, |o: int| sym_at(d@, o, c, e)) is None,
            Some(v) => entries_at(off as int, sym_size(c), n as nat, |o: int| sym_at(d@, o, c, e)) == Some(v@),
        },
{
    let ghost f = |o: int| sym_at(d@, o, c, e);
    let size: usize = match c {
        Class::Class32 => 16,
        Class::Class64 => 24,
    };
    let mut v: Vec<Sym> = Vec::new();
    let mut pos: usize = off;
    let mut i: usize = 0;
    while i < n
        invariant
            i <= n,
            size == sym_size(c),
            f == (|o: int| sym_at(d@, o, c, e)),
            pos == off + i * size,
            d@.len() == d.len(),
            entries_at(off as int, sym_size(c), i as nat, f) == Some(v@),
        decreases n - i,
    {
        match read_sym(d, pos, c, e) {
            Some(x) => {
                v.push(x);
            },
            None => {
                proof {
                    lemma_entries_none_stays(off as int, sym_size(c), (i + 1) as nat, n as nat, f);
                }
                return None;
            },
        }
        proof {
            lemma_next_entry(off as int, i as int, size as int);
        }
        pos = pos + size;
        i = i + 1;
    }
    Some(v)
}

/// The first symbol table section (`SHT_SYMTAB`) among `secs` from index
/// `i` on, if any.
pub open spec fn symtab_from(secs: Seq<section::Header>, i: int) -> Option<section::Header>
    decreases secs.len() - i,
{
    if i < 0 || i >= secs.len() {
        None
    } else if secs[i].typ == section::Type::Symtab {
        Some(secs[i])
    } else {
        symtab_from(secs, i + 1)
    }
}

/// What a file is read as: its header, section headers, program headers,
/// the entries of its symbol table and the section index of the string
/// table of the symbol names.
pub struct ElfFileView {
    pub header: elf::Header,
    pub sections: Seq<section::Header>,
    pub segments: Seq<segment::Header>,
    pub syms: Seq<Sym>,
    pub symtab_strtab: usize,
}

/// The file in `d`: its header, then `e_shnum` section headers from
/// `e_shoff` and `e_phnum` program headers from `e_phoff`. The symbols are
/// the entries of the first symbol table section, as many as fit in its
/// size, and the string table of their names is the section that its
/// `sh_link` names; without a symbol table there are no symbols and that
/// index is 0. `None` where a part cannot be read.
pub open spec fn elf_at(d: Seq<u8>) -> Option<ElfFileView> {
    match header_at(d) {
        None => None,
        Some(h) => {
            let c = h.class;
            let e = h.endianness;
            match entries_at(h.shoff as int, shdr_size(c), h.shnum as nat, |o: int| shdr_at(d, o, c, e)) {
                None => None,
                Some(secs) => match entries_at(
                    h.phoff as int,
                    phdr_size(c),
                    h.phnum as nat,
                    |o: int| phdr_at(d, o, c, e),
                ) {
                    None => None,
                    Some(segs) => match symtab_from(secs, 0) {
                        None => Some(
                            ElfFileView {
                                header: h,
                                sections: secs,
                                segments: segs,
                                syms: Seq::empty(),
                                symtab_strtab: 0,
                            },
                        ),
                        Some(st) => match entries_at(
                            st.offset as int,
                            sym_size(c),
                            st.size as nat / sym_size(c),
                            |o: int| sym_at(d, o, c, e),
                        ) {
                            None => None,
                            Some(syms) => Some(
                                ElfFileView {
                                    header: h,
                                    sections: secs,
                                    segments: segs,
                                    syms,
                                    symtab_strtab: st.link as usize,
                                },
                            ),
                        },
                    },
                },
            }
        },
    }
}

/// The parts of a read file.
pub open spec fn file_view(f: ElfFile) -> ElfFileView {
    ElfFileView {
        header: f.header,
        sections: f.sections@,
        segments: f.segments@,
        syms: f.syms@,
        symtab_strtab: f.symtab_strtab,
    }
}

/// Reads an ELF file from its bytes; `None` where `elf_at` finds it
/// unreadable.
pub fn parse<'a>(d: &'a [u8]) -> (r: Option<ElfFile<'a>>)
    ensures
        match r {
            None => elf_at(d@) is None,
            Some(f) => elf_at(d@) == Some(file_view(f)) && f.data == d,
        },
{
    let header = match read_header(d) {
        Some(h) => h,
        None => {
            return None;
        },
    };
    let c = header.class;
    let e = header.endianness;
    let sections = match read_shdrs(d, header.shoff, header.shnum, c, e) {
        Some(v) => v,
        None => {
            return None;
        },
    };
    let segments = match read_phdrs(d, header.phoff, header.phnum, c, e) {
        Some(v) => v,
        None => {
            return None;
        },
    };
    let mut i: usize = 0;
    while i < sections.len()
        invariant
            i <= sections@.len(),
            symtab_from(sections@, 0) == symtab_from(sections@, i as int),
        ensures
            i <= sections@.len(),
            symtab_from(sections@, 0) == symtab_from(sections@, i as int),
            i < sections@.len() ==> sections@[i as int].typ == section::Type::Symtab,
        decreases sections.len() - i,
    {
        match sections[i].typ {
            section::Type::Symtab => {
                break;
            },
            _ => {},
        }
        i = i + 1;
    }
    if i == sections.len() {
        return Some(ElfFile { header, sections, segments, syms: Vec::new(), symtab_strtab: 0, data: d });
    }
    let st_offset = sections[i].offset;
    let st_size = sections[i].size;
    let st_link = sections[i].link;
    let count: usize = match c {
        Class::Class32 => st_size / 16,
        Class::Class64 => st_size / 24,
    };
    let syms = match read_syms(d, st_offset, count, c, e) {
        Some(v) => v,
        None => {
            return None;
        },
    };
    Some(ElfFile { header, sections, segments, syms, symtab_strtab: st_link as usize, data: d })
}

/// `256^n` for the field widths of a file.
proof fn lemma_field_bounds()
    ensures
        pow(256, 1) == 0x100,
        pow(256, 2) == 0x1_0000,
        pow(256, 4) == 0x1_0000_0000,
        pow(256, 8) == 0x1_0000_0000_0000_0000int,
{
    reveal_with_fuel(pow, 9);
}

/// Decoding the bytes of a value that fits in them gives the value back.
pub proof fn lemma_uint_reads_back(d: Seq<u8>, off: int, n: nat, e: Endianness, v: int)
    requires
        0 <= off,
        off + n <= d.len(),
        0 <= v < pow(256, n),
        d.subrange(off, off + n) == uint_bytes(v, n, e),
    ensures
        uint_val(d, off, n, e) == v,
{
    lemma_le_bytes_roundtrip(v, n);
    lemma_le_bytes_len(v, n);
    vstd::arithmetic::div_mod::lemma_small_mod(v as nat, pow(256, n) as nat);
    if e == Endianness::Big {
        assert(le_bytes(v, n).reverse().reverse() =~= le_bytes(v, n));
    }
}

proof fn lemma_ehdr_len(c: Class, e: Endianness, h: elf::Header)
    ensures
        ehdr_bytes(c, e, h).len() == ehdr_size(c),
{
    broadcast use crate::bytes::lemma_uint_bytes_len;
    broadcast use crate::writer::lemma_word_bytes_len;

}

/// The fields of a file header after `e_ident` read back from its bytes.
proof fn lemma_header_fields_read_back(h: elf::Header, d: Seq<u8>)
    requires
        h.class == Class::Class32 ==> h.entry <= u32::MAX && h.phoff <= u32::MAX && h.shoff
            <= u32::MAX,
        ehdr_bytes(h.class, h.endianness, h).len() <= d.len(),
        d.subrange(0, ehdr_bytes(h.class, h.endianness, h).len() as int) == ehdr_bytes(
            h.class,
            h.endianness,
            h,
        ),
    ensures
        ({
            let e = h.endianness;
            let w = word_len(h.class) as int;
            &&& uint_val(d, 16, 2, e) == crate::elf::type_code(h.typ)
            &&& uint_val(d, 18, 2, e) == h.machine
            &&& uint_val(d, 24, word_len(h.class), e) == h.entry
            &&& uint_val(d, 24 + w, word_len(h.class), e) == h.phoff
            &&& uint_val(d, 24 + 2 * w, word_len(h.class), e) == h.shoff
            &&& uint_val(d, 24 + 3 * w, 4, e) == h.flags
            &&& uint_val(d, 28 + 3 * w, 2, e) == h.header_size
            &&& uint_val(d, 30 + 3 * w, 2, e) == h.phentsize
            &&& uint_val(d, 32 + 3 * w, 2, e) == h.phnum
            &&& uint_val(d, 34 + 3 * w, 2, e) == h.shentsize
            &&& uint_val(d, 36 + 3 * w, 2, e) == h.shnum
            &&& uint_val(d, 38 + 3 * w, 2, e) == h.shstrndx
        }),
{
    broadcast use crate::bytes::lemma_uint_bytes_len;
    broadcast use crate::writer::lemma_word_bytes_len;

    let c = h.class;
    let e = h.endianness;
    let b = ehdr_bytes(c, e, h);
    let w: int = word_len(c) as int;
    lemma_field_bounds();
    let tc = crate::elf::type_code(h.typ) as int;
    assert(b.subrange(16, 18) =~= uint_bytes(tc, 2, e));
    lemma_field_reads_back(d, 0, b, 16, 2, e, tc);
    assert(b.subrange(18, 20) =~= uint_bytes(h.machine as int, 2, e));
    lemma_field_reads_back(d, 0, b, 18, 2, e, h.machine as int);
    lemma_word_fits(c, e, h.entry);
    lemma_word_fits(c, e, h.phoff);
    lemma_word_fits(c, e, h.shoff);
    assert(b.subrange(24, 24 + w) =~= word_bytes(c, e, h.entry));
    lemma_field_reads_back(d, 0, b, 24, word_len(c), e, h.entry as int);
    assert(b.subrange(24 + w, 24 + 2 * w) =~= word_bytes(c, e, h.phoff));
    lemma_field_reads_back(d, 0, b, 24 + w, word_len(c), e, h.phoff as int);
    assert(b.subrange(24 + 2 * w, 24 + 3 * w) =~= word_bytes(c, e, h.shoff));
    lemma_field_reads_back(d, 0, b, 24 + 2 * w, word_len(c), e, h.shoff as int);
    assert(b.subrange(24 + 3 * w, 28 + 3 * w) =~= uint_bytes(h.flags as int, 4, e));
    lemma_field_reads_back(d, 0, b, 24 + 3 * w, 4, e, h.flags as int);
    assert(b.subrange(28 + 3 * w, 30 + 3 * w) =~= uint_bytes(h.header_size as int, 2, e));
    lemma_field_reads_back(d, 0, b, 28 + 3 * w, 2, e, h.header_size as int);
    assert(b.subrange(30 + 3 * w, 32 + 3 * w) =~= uint_bytes(h.phentsize as int, 2, e));
    lemma_field_reads_back(d, 0, b, 30 + 3 * w, 2, e, h.phentsize as int);
    assert(b.subrange(32 + 3 * w, 34 + 3 * w) =~= uint_bytes(h.phnum as int, 2, e));
    lemma_field_reads_back(d, 0, b, 32 + 3 * w, 2, e, h.phnum as int);
    assert(b.subrange(34 + 3 * w, 36 + 3 * w) =~= uint_bytes(h.shentsize as int, 2, e));
    lemma_field_reads_back(d, 0, b, 34 + 3 * w, 2, e, h.shentsize as int);
    assert(b.subrange(36 + 3 * w, 38 + 3 * w) =~= uint_bytes(h.shnum as int, 2, e));
    lemma_field_reads_back(d, 0, b, 36 + 3 * w, 2, e, h.shnum as int);
    assert(b.subrange(38 + 3 * w, 40 + 3 * w) =~= uint_bytes(h.shstrndx as int, 2, e));
    lemma_field_reads_back(d, 0, b, 38 + 3 * w, 2, e, h.shstrndx as int);
}

/// The first bytes of a file header: the magic, the class, the byte order,
/// the version, the OS ABI and the ABI version.
proof fn lemma_ehdr_ident(h: elf::Header)
    ensures
        ({
            let b = ehdr_bytes(h.class, h.endianness, h);
            &&& b.len() > 8
            &&& b[0] == 0x7fu8 && b[1] == 0x45u8 && b[2] == 0x4cu8 && b[3] == 0x46u8
            &&& b[4] == crate::elf::class_code(h.class)
            &&& b[5] == crate::elf::endianness_code(h.endianness)
            &&& b[7] == h.os_abi
            &&& b[8] == h.abi_version
        }),
{
    broadcast use crate::bytes::lemma_uint_bytes_len;
    broadcast use crate::writer::lemma_word_bytes_len;

}

/// `header_at` gives `h` for bytes that hold each of its fields.
proof fn lemma_header_at_fields(h: elf::Header, d: Seq<u8>)
    requires
        h.class == Class::Class32 ==> h.entry <= u32::MAX && h.phoff <= u32::MAX && h.shoff
            <= u32::MAX,
        d.len() >= ehdr_size(h.class),
        d[0] == 0x7fu8 && d[1] == 0x45u8 && d[2] == 0x4cu8 && d[3] == 0x46u8,
        class_of_code(d[4]) == Some(h.class),
        endianness_of_code(d[5]) == Some(h.endianness),
        d[7] == h.os_abi,
        d[8] == h.abi_version,
        elf::type_of_code(crate::elf::type_code(h.typ)) == Some(h.typ),
        ({
            let e = h.endianness;
            let w = word_len(h.class) as int;
            &&& uint_val(d, 16, 2, e) == crate::elf::type_code(h.typ)
            &&& uint_val(d, 18, 2, e) == h.machine
            &&& uint_val(d, 24, word_len(h.class), e) == h.entry
            &&& uint_val(d, 24 + w, word_len(h.class), e) == h.phoff
            &&& uint_val(d, 24 + 2 * w, word_len(h.class), e) == h.shoff
            &&& uint_val(d, 24 + 3 * w, 4, e) == h.flags
            &&& uint_val(d, 28 + 3 * w, 2, e) == h.header_size
            &&& uint_val(d, 30 + 3 * w, 2, e) == h.phentsize
            &&& uint_val(d, 32 + 3 * w, 2, e) == h.phnum
            &&& uint_val(d, 34 + 3 * w, 2, e) == h.shentsize
            &&& uint_val(d, 36 + 3 * w, 2, e) == h.shnum
            &&& uint_val(d, 38 + 3 * w, 2, e) == h.shstrndx
        }),
    ensures
        header_at(d) == Some(h),
{
}

/// A file header is read back from the bytes that lay it out: whatever
/// follows them, `header_at` gives the header, where its entry point and
/// table offsets fit in the words of its class.
pub proof fn lemma_header_reads_back(h: elf::Header, rest: Seq<u8>)
    requires
        h.class == Class::Class32 ==> h.entry <= u32::MAX && h.phoff <= u32::MAX && h.shoff
            <= u32::MAX,
    ensures
        header_at(ehdr_bytes(h.class, h.endianness, h) + rest) == Some(h),
{
    let b = ehdr_bytes(h.class, h.endianness, h);
    let d = b + rest;
    lemma_ehdr_len(h.class, h.endianness, h);
    lemma_ehdr_ident(h);
    crate::elf::lemma_class_code_inverts(h.class);
    crate::elf::lemma_endianness_code_inverts(h.endianness);
    crate::elf::lemma_type_code_inverts(h.typ);
    assert(d.subrange(0, b.len() as int) =~= b);
    assert(d[0] == b[0] && d[1] == b[1] && d[2] == b[2] && d[3] == b[3]);
    assert(d[4] == b[4] && d[5] == b[5] && d[7] == b[7] && d[8] == b[8]);
    lemma_header_fields_read_back(h, d);
    lemma_header_at_fields(h, d);
}

/// The bytes of a machine word of the class hold `v` exactly when it fits.
proof fn lemma_word_fits(c: Class, e: Endianness, v: usize)
    requires
        c == Class::Class32 ==> v <= u32::MAX,
    ensures
        word_bytes(c, e, v) == uint_bytes(v as int, word_len(c), e),
        v < pow(256, word_len(c)),
{
    lemma_field_bounds();
}

/// A field of a record laid out at `off` of `d` reads back as its value.
proof fn lemma_field_reads_back(d: Seq<u8>, off: int, b: Seq<u8>, k: int, n: nat, e: Endianness, v: int)
    requires
        0 <= off,
        0 <= k,
        k + n <= b.len(),
        off + b.len() <= d.len(),
        d.subrange(off, off + b.len()) == b,
        b.subrange(k, k + n) == uint_bytes(v, n, e),
        0 <= v < pow(256, n),
    ensures
        uint_val(d, off + k, n, e) == v,
{
    assert(d.subrange(off + k, off + k + n) =~= b.subrange(k, k + n));
    lemma_uint_reads_back(d, off + k, n, e, v);
}

proof fn lemma_shdr32_reads_back(d: Seq<u8>, off: int, e: Endianness, h: section::Header)
    requires
        0 <= off,
        off + 40 <= d.len(),
        d.subrange(off, off + 40) == shdr_bytes(Class::Class32, e, h),
        h.name <= u32::MAX,
        h.addr <= u32::MAX && h.offset <= u32::MAX && h.size <= u32::MAX && h.align <= u32::MAX
            && h.entry_size <= u32::MAX,
    ensures
        shdr_at(d, off, Class::Class32, e) == Some(h),
{
    broadcast use crate::bytes::lemma_uint_bytes_len;

    let c = Class::Class32;
    let b = shdr_bytes(c, e, h);
    lemma_field_bounds();
    crate::section::lemma_type_code_inverts(h.typ);
    let tc = crate::section::type_code(h.typ) as int;
    assert(b.subrange(0, 4) =~= uint_bytes(h.name as int, 4, e));
    lemma_field_reads_back(d, off, b, 0, 4, e, h.name as int);
    assert(b.subrange(4, 8) =~= uint_bytes(tc, 4, e));
    lemma_field_reads_back(d, off, b, 4, 4, e, tc);
    assert(b.subrange(8, 12) =~= uint_bytes(h.flags.bits as int, 4, e));
    lemma_field_reads_back(d, off, b, 8, 4, e, h.flags.bits as int);
    assert(b.subrange(12, 16) =~= uint_bytes(h.addr as int, 4, e));
    lemma_field_reads_back(d, off, b, 12, 4, e, h.addr as int);
    assert(b.subrange(16, 20) =~= uint_bytes(h.offset as int, 4, e));
    lemma_field_reads_back(d, off, b, 16, 4, e, h.offset as int);
    assert(b.subrange(20, 24) =~= uint_bytes(h.size as int, 4, e));
    lemma_field_reads_back(d, off, b, 20, 4, e, h.size as int);
    assert(b.subrange(24, 28) =~= uint_bytes(h.link as int, 4, e));
    lemma_field_reads_back(d, off, b, 24, 4, e, h.link as int);
    assert(b.subrange(28, 32) =~= uint_bytes(h.info as int, 4, e));
    lemma_field_reads_back(d, off, b, 28, 4, e, h.info as int);
    assert(b.subrange(32, 36) =~= uint_bytes(h.align as int, 4, e));
    lemma_field_reads_back(d, off, b, 32, 4, e, h.align as int);
    assert(b.subrange(36, 40) =~= uint_bytes(h.entry_size as int, 4, e));
    lemma_field_reads_back(d, off, b, 36, 4, e, h.entry_size as int);
}

proof fn lemma_shdr64_reads_back(d: Seq<u8>, off: int, e: Endianness, h: section::Header)
    requires
        0 <= off,
        off + 64 <= d.len(),
        d.subrange(off, off + 64) == shdr_bytes(Class::Class64, e, h),
        h.name <= u32::MAX,
        h.addr <= usize::MAX,
    ensures
        shdr_at(d, off, Class::Class64, e) == Some(h),
{
    broadcast use crate::bytes::lemma_uint_bytes_len;

    let c = Class::Class64;
    let b = shdr_bytes(c, e, h);
    lemma_field_bounds();
    crate::section::lemma_type_code_inverts(h.typ);
    let tc = crate::section::type_code(h.typ) as int;
    assert(b.subrange(0, 4) =~= uint_bytes(h.name as int, 4, e));
    lemma_field_reads_back(d, off, b, 0, 4, e, h.name as int);
    assert(b.subrange(4, 8) =~= uint_bytes(tc, 4, e));
    lemma_field_reads_back(d, off, b, 4, 4, e, tc);
    assert(b.subrange(8, 16) =~= uint_bytes(h.flags.bits as int, 8, e));
    lemma_field_reads_back(d, off, b, 8, 8, e, h.flags.bits as int);
    assert(b.subrange(16, 24) =~= uint_bytes(h.addr as int, 8, e));
    lemma_field_reads_back(d, off, b, 16, 8, e, h.addr as int);
    assert(b.subrange(24, 32) =~= uint_bytes(h.offset as int, 8, e));
    lemma_field_reads_back(d, off, b, 24, 8, e, h.offset as int);
    assert(b.subrange(32, 40) =~= uint_bytes(h.size as int, 8, e));
    lemma_field_reads_back(d, off, b, 32, 8, e, h.size as int);
    assert(b.subrange(40, 44) =~= uint_bytes(h.link as int, 4, e));
    lemma_field_reads_back(d, off, b, 40, 4, e, h.link as int);
    assert(b.subrange(44, 48) =~= uint_bytes(h.info as int, 4, e));
    lemma_field_reads_back(d, off, b, 44, 4, e, h.info as int);
    assert(b.subrange(48, 56) =~= uint_bytes(h.align as int, 8, e));
    lemma_field_reads_back(d, off, b, 48, 8, e, h.align as int);
    assert(b.subrange(56, 64) =~= uint_bytes(h.entry_size as int, 8, e));
    lemma_field_reads_back(d, off, b, 56, 8, e, h.entry_size as int);
}

/// A section header is read back from the bytes that lay it out, where its
/// name offset fits in 32 bits, its address in a machine word, and, in a
/// 32-bit file, its address, offset, size, alignment and entry size in 32
/// bits.
pub proof fn lemma_shdr_reads_back(d: Seq<u8>, off: int, c: Class, e: Endianness, h: section::Header)
    requires
        0 <= off,
        off + shdr_size(c) <= d.len(),
        d.subrange(off, off + shdr_size(c)) == shdr_bytes(c, e, h),
        h.name <= u32::MAX,
        h.addr <= usize::MAX,
        c == Class::Class32 ==> h.addr <= u32::MAX && h.offset <= u32::MAX && h.size <= u32::MAX
            && h.align <= u32::MAX && h.entry_size <= u32::MAX,
    ensures
        shdr_at(d, off, c, e) == Some(h),
{
    match c {
        Class::Class32 => lemma_shdr32_reads_back(d, off, e, h),
        Class::Class64 => lemma_shdr64_reads_back(d, off, e, h),
    }
}

proof fn lemma_phdr32_reads_back(d: Seq<u8>, off: int, e: Endianness, h: segment::Header)
    requires
        0 <= off,
        off + 32 <= d.len(),
        d.subrange(off, off + 32) == phdr_bytes(Class::Class32, e, h),
        h.offset <= u32::MAX && h.virtual_addr <= u32::MAX && h.physical_addr <= u32::MAX
            && h.file_size <= u32::MAX && h.mem_size <= u32::MAX && h.align <= u32::MAX,
    ensures
        phdr_at(d, off, Class::Class32, e) == Some(h),
{
    broadcast use crate::bytes::lemma_uint_bytes_len;

    let b = phdr_bytes(Class::Class32, e, h);
    lemma_field_bounds();
    crate::segment::lemma_type_code_inverts(h.segment_type);
    let tc = crate::segment::type_code(h.segment_type) as int;
    assert(b.subrange(0, 4) =~= uint_bytes(tc, 4, e));
    lemma_field_reads_back(d, off, b, 0, 4, e, tc);
    assert(b.subrange(4, 8) =~= uint_bytes(h.offset as int, 4, e));
    lemma_field_reads_back(d, off, b, 4, 4, e, h.offset as int);
    assert(b.subrange(8, 12) =~= uint_bytes(h.virtual_addr as int, 4, e));
    lemma_field_reads_back(d, off, b, 8, 4, e, h.virtual_addr as int);
    assert(b.subrange(12, 16) =~= uint_bytes(h.physical_addr as int, 4, e));
    lemma_field_reads_back(d, off, b, 12, 4, e, h.physical_addr as int);
    assert(b.subrange(16, 20) =~= uint_bytes(h.file_size as int, 4, e));
    lemma_field_reads_back(d, off, b, 16, 4, e, h.file_size as int);
    assert(b.subrange(20, 24) =~= uint_bytes(h.mem_size as int, 4, e));
    lemma_field_reads_back(d, off, b, 20, 4, e, h.mem_size as int);
    assert(b.subrange(24, 28) =~= uint_bytes(h.flags.bits as int, 4, e));
    lemma_field_reads_back(d, off, b, 24, 4, e, h.flags.bits as int);
    assert(b.subrange(28, 32) =~= uint_bytes(h.align as int, 4, e));
    lemma_field_reads_back(d, off, b, 28, 4, e, h.align as int);
}

proof fn lemma_phdr64_reads_back(d: Seq<u8>, off: int, e: Endianness, h: segment::Header)
    requires
        0 <= off,
        off + 56 <= d.len(),
        d.subrange(off, off + 56) == phdr_bytes(Class::Class64, e, h),
        h.offset <= usize::MAX && h.virtual_addr <= usize::MAX && h.physical_addr <= usize::MAX,
    ensures
        phdr_at(d, off, Class::Class64, e) == Some(h),
{
    broadcast use crate::bytes::lemma_uint_bytes_len;

    let b = phdr_bytes(Class::Class64, e, h);
    lemma_field_bounds();
    crate::segment::lemma_type_code_inverts(h.segment_type);
    let tc = crate::segment::type_code(h.segment_type) as int;
    assert(b.subrange(0, 4) =~= uint_bytes(tc, 4, e));
    lemma_field_reads_back(d, off, b, 0, 4, e, tc);
    assert(b.subrange(4, 8) =~= uint_bytes(h.flags.bits as int, 4, e));
    lemma_field_reads_back(d, off, b, 4, 4, e, h.flags.bits as int);
    assert(b.subrange(8, 16) =~= uint_bytes(h.offset as int, 8, e));
    lemma_field_reads_back(d, off, b, 8, 8, e, h.offset as int);
    assert(b.subrange(16, 24) =~= uint_bytes(h.virtual_addr as int, 8, e));
    lemma_field_reads_back(d, off, b, 16, 8, e, h.virtual_addr as int);
    assert(b.subrange(24, 32) =~= uint_bytes(h.physical_addr as int, 8, e));
    lemma_field_reads_back(d, off, b, 24, 8, e, h.physical_addr as int);
    assert(b.subrange(32, 40) =~= uint_bytes(h.file_size as int, 8, e));
    lemma_field_reads_back(d, off, b, 32, 8, e, h.file_size as int);
    assert(b.subrange(40, 48) =~= uint_bytes(h.mem_size as int, 8, e));
    lemma_field_reads_back(d, off, b, 40, 8, e, h.mem_size as int);
    assert(b.subrange(48, 56) =~= uint_bytes(h.align as int, 8, e));
    lemma_field_reads_back(d, off, b, 48, 8, e, h.align as int);
}

/// A program header is read back from the bytes that lay it out, where its
/// offset and addresses fit in a machine word and, in a 32-bit file, its
/// offset, addresses, sizes and alignment fit in 32 bits.
pub proof fn lemma_phdr_reads_back(d: Seq<u8>, off: int, c: Class, e: Endianness, h: segment::Header)
    requires
        0 <= off,
        off + phdr_size(c) <= d.len(),
        d.subrange(off, off + phdr_size(c)) == phdr_bytes(c, e, h),
        h.offset <= usize::MAX && h.virtual_addr <= usize::MAX && h.physical_addr <= usize::MAX,
        c == Class::Class32 ==> h.offset <= u32::MAX && h.virtual_addr <= u32::MAX
            && h.physical_addr <= u32::MAX && h.file_size <= u32::MAX && h.mem_size <= u32::MAX
            && h.align <= u32::MAX,
    ensures
        phdr_at(d, off, c, e) == Some(h),
{
    match c {
        Class::Class32 => lemma_phdr32_reads_back(d, off, e, h),
        Class::Class64 => lemma_phdr64_reads_back(d, off, e, h),
    }
}

/// The binding and type of a symbol come back out of its `st_info` byte.
proof fn lemma_sym_info_splits(x: Sym)
    ensures
        bind_of_code(sym_info(x) / 16) == Some(x.bind),
        sym_type_of_code(sym_info(x) % 16) == Some(x.typ),
{
    crate::symbol::lemma_bind_code_inverts(x.bind);
    crate::symbol::lemma_sym_type_code_inverts(x.typ);
    let bc = crate::symbol::bind_code(x.bind);
    let tc = crate::symbol::sym_type_code(x.typ);
    assert(bc <= 2 && tc <= 6);
    assert(sym_info(x) == bc * 16 + tc);
}

proof fn lemma_sym32_reads_back(d: Seq<u8>, off: int, e: Endianness, x: Sym)
    requires
        0 <= off,
        off + 16 <= d.len(),
        d.subrange(off, off + 16) == sym_bytes(Class::Class32, e, x),
        x.value <= u32::MAX && x.size <= u32::MAX,
    ensures
        sym_at(d, off, Class::Class32, e) == Some(x),
{
    broadcast use crate::bytes::lemma_uint_bytes_len;

    let b = sym_bytes(Class::Class32, e, x);
    lemma_field_bounds();
    lemma_sym_info_splits(x);
    assert(b.subrange(0, 4) =~= uint_bytes(x.name as int, 4, e));
    lemma_field_reads_back(d, off, b, 0, 4, e, x.name as int);
    assert(b.subrange(4, 8) =~= uint_bytes(x.value as int, 4, e));
    lemma_field_reads_back(d, off, b, 4, 4, e, x.value as int);
    assert(b.subrange(8, 12) =~= uint_bytes(x.size as int, 4, e));
    lemma_field_reads_back(d, off, b, 8, 4, e, x.size as int);
    assert(d[off + 12] == b[12] && b[12] == sym_info(x));
    assert(d[off + 13] == b[13] && b[13] == x.other);
    assert(b.subrange(14, 16) =~= uint_bytes(x.shndx as int, 2, e));
    lemma_field_reads_back(d, off, b, 14, 2, e, x.shndx as int);
}

proof fn lemma_sym64_reads_back(d: Seq<u8>, off: int, e: Endianness, x: Sym)
    requires
        0 <= off,
        off + 24 <= d.len(),
        d.subrange(off, off + 24) == sym_bytes(Class::Class64, e, x),
    ensures
        sym_at(d, off, Class::Class64, e) == Some(x),
{
    broadcast use crate::bytes::lemma_uint_bytes_len;

    let b = sym_bytes(Class::Class64, e, x);
    lemma_field_bounds();
    lemma_sym_info_splits(x);
    assert(b.subrange(0, 4) =~= uint_bytes(x.name as int, 4, e));
    lemma_field_reads_back(d, off, b, 0, 4, e, x.name as int);
    assert(d[off + 4] == b[4] && b[4] == sym_info(x));
    assert(d[off + 5] == b[5] && b[5] == x.other);
    assert(b.subrange(6, 8) =~= uint_bytes(x.shndx as int, 2, e));
    lemma_field_reads_back(d, off, b, 6, 2, e, x.shndx as int);
    assert(b.subrange(8, 16) =~= uint_bytes(x.value as int, 8, e));
    lemma_field_reads_back(d, off, b, 8, 8, e, x.value as int);
    assert(b.subrange(16, 24) =~= uint_bytes(x.size as int, 8, e));
    lemma_field_reads_back(d, off, b, 16, 8, e, x.size as int);
}

/// A symbol table entry is read back from the bytes that lay it out, where,
/// in a 32-bit file, its value and size fit in 32 bits.
pub proof fn lemma_sym_reads_back(d: Seq<u8>, off: int, c: Class, e: Endianness, x: Sym)
    requires
        0 <= off,
        off + sym_size(c) <= d.len(),
        d.subrange(off, off + sym_size(c)) == sym_bytes(c, e, x),
        c == Class::Class32 ==> x.value <= u32::MAX && x.size <= u32::MAX,
    ensures
        sym_at(d, off, c, e) == Some(x),
{
    match c {
        Class::Class32 => lemma_sym32_reads_back(d, off, e, x),
        Class::Class64 => lemma_sym64_reads_back(d, off, e, x),
    }
}

proof fn lemma_wrote_holds(before: Writer, after: Writer, bytes: Seq<u8>)
    requires
        after.wrote(before, bytes),
    ensures
        before.position() + bytes.len() <= after.contents().len(),
        after.contents().subrange(
            before.position() as int,
            before.position() + bytes.len(),
        ) == bytes,
{
    lemma_write_reads_back(before.contents(), before.position() as int, bytes);
}

/// What a writer writes as the file header at the start of its buffer is
/// read back as that header, where the entry point and table offsets fit in
/// the words of its class.
pub proof fn lemma_written_header_reads_back(before: Writer, after: Writer, h: elf::Header)
    requires
        before.position() == 0,
        after.wrote(before, ehdr_bytes(h.class, h.endianness, h)),
        h.class == Class::Class32 ==> h.entry <= u32::MAX && h.phoff <= u32::MAX && h.shoff
            <= u32::MAX,
    ensures
        header_at(after.contents()) == Some(h),
{
    let b = ehdr_bytes(h.class, h.endianness, h);
    let d = after.contents();
    lemma_wrote_holds(before, after, b);
    assert(d =~= b + d.subrange(b.len() as int, d.len() as int));
    lemma_header_reads_back(h, d.subrange(b.len() as int, d.len() as int));
}

/// What a writer writes as a section header is read back as that header
/// where it was written, within the bounds of `lemma_shdr_reads_back`.
pub proof fn lemma_written_shdr_reads_back(before: Writer, after: Writer, h: section::Header)
    requires
        after.wrote(before, shdr_bytes(before.class(), before.endian(), h)),
        h.name <= u32::MAX,
        h.addr <= usize::MAX,
        before.class() == Class::Class32 ==> h.addr <= u32::MAX && h.offset <= u32::MAX && h.size
            <= u32::MAX && h.align <= u32::MAX && h.entry_size <= u32::MAX,
    ensures
        shdr_at(after.contents(), before.position() as int, before.class(), before.endian()) == Some(h),
{
    broadcast use crate::bytes::lemma_uint_bytes_len;
    broadcast use crate::writer::lemma_word_bytes_len;

    lemma_wrote_holds(before, after, shdr_bytes(before.class(), before.endian(), h));
    lemma_shdr_reads_back(after.contents(), before.position() as int, before.class(), before.endian(), h);
}

/// What a writer writes as a program header is read back as that header
/// where it was written, within the bounds of `lemma_phdr_reads_back`.
pub proof fn lemma_written_phdr_reads_back(before: Writer, after: Writer, h: segment::Header)
    requires
        after.wrote(before, phdr_bytes(before.class(), before.endian(), h)),
        h.offset <= usize::MAX && h.virtual_addr <= usize::MAX && h.physical_addr <= usize::MAX,
        before.class() == Class::Class32 ==> h.offset <= u32::MAX && h.virtual_addr <= u32::MAX
            && h.physical_addr <= u32::MAX && h.file_size <= u32::MAX && h.mem_size <= u32::MAX
            && h.align <= u32::MAX,
    ensures
        phdr_at(after.contents(), before.position() as int, before.class(), before.endian()) == Some(h),
{
    broadcast use crate::bytes::lemma_uint_bytes_len;
    broadcast use crate::writer::lemma_word_bytes_len;

    lemma_wrote_holds(before, after, phdr_bytes(before.class(), before.endian(), h));
    lemma_phdr_reads_back(after.contents(), before.position() as int, before.class(), before.endian(), h);
}

/// What a writer writes as a symbol table entry is read back as that entry
/// where it was written, within the bounds of `lemma_sym_reads_back`.
pub proof fn lemma_written_sym_reads_back(before: Writer, after: Writer, x: Sym)
    requires
        after.wrote(before, sym_bytes(before.class(), before.endian(), x)),
        before.class() == Class::Class32 ==> x.value <= u32::MAX && x.size <= u32::MAX,
    ensures
        sym_at(after.contents(), before.position() as int, before.class(), before.endian()) == Some(x),
{
    broadcast use crate::bytes::lemma_uint_bytes_len;
    broadcast use crate::writer::lemma_word_bytes_len;

    lemma_wrote_holds(before, after, sym_bytes(before.class(), before.endian(), x));
    lemma_sym_reads_back(after.contents(), before.position() as int, before.class(), before.endian(), x);
}

} // verus!
