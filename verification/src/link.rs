//! Linking: reading the sections of input objects, merging them into output
//! sections as the configuration says, and grouping those into segments.
use vstd::prelude::*;
use crate::config::Config;
use crate::elf::{self, Class, ElfFile, Endianness};
use crate::reader::{elf_at, file_view, parse, ElfFileView};
use crate::section;
use crate::segment;
use crate::sorting::{first_index, keys_of, values_by_key};
use crate::symbol::{Sym, SymBind, SymType};

verus! {

/// Why a linking step gave up.
#[derive(Clone, Copy, Debug, PartialEq, Eq, Structural)]
pub enum LinkError {
    /// An input cannot be read as an ELF file.
    Malformed,
    /// An input is not a relocatable object file.
    NotRelocatable,
    /// A string table index is 0: files without the table are not supported.
    MissingStringTable,
    /// A string table index is past the section headers.
    StringTableIndexOutOfRange,
    /// A string table section has flags.
    StringTableHasFlags,
    /// A string table section is not of type `SHT_STRTAB`.
    NotAStringTable,
    /// A string table section reaches past the end of the file.
    StringTableOutOfBounds,
    /// A section has `SHF_LINK_ORDER`, which is not supported yet.
    LinkOrderUnsupported,
    /// A name offset is past the end of its string table.
    NameOutOfBounds,
    /// A name has no terminating nul byte in its string table.
    UnterminatedName,
    /// A size or an alignment does not fit in a machine word.
    Overflow,
}

/// The identification of an input file.
#[derive(Clone, Copy, Debug)]
pub struct ElfIdent {
    pub class: Class,
    pub endianness: Endianness,
    pub os_abi: u8,
    pub abi_version: u8,
    pub machine: u16,
}

/// A symbol of an input section, with its name read from the string table
/// (without the terminating nul).
#[derive(Debug, PartialEq, Eq)]
pub struct InputSym {
    pub name: Vec<u8>,
    pub bind: SymBind,
    pub typ: SymType,
    pub other: u8,
    pub value: usize,
    pub size: usize,
}

/// The value of an input symbol.
pub struct InputSymView {
    pub name: Seq<u8>,
    pub bind: SymBind,
    pub typ: SymType,
    pub other: u8,
    pub value: usize,
    pub size: usize,
}

impl View for InputSym {
    type V = InputSymView;

    open spec fn view(&self) -> InputSymView {
        InputSymView {
            name: self.name@,
            bind: self.bind,
            typ: self.typ,
            other: self.other,
            value: self.value,
            size: self.size,
        }
    }
}

/// A section of an input file, with its name read from the section header
/// string table (without the terminating nul).
#[derive(Debug, PartialEq, Eq)]
pub struct InputSection {
    pub name: Vec<u8>,
    pub flags: section::Flags,
    pub addr: usize,
    pub align: usize,
    pub size: usize,
    pub syms: Vec<InputSym>,
}

/// The value of an input section.
pub struct InputSectionView {
    pub name: Seq<u8>,
    pub flags: u32,
    pub addr: usize,
    pub align: usize,
    pub size: usize,
    pub syms: Seq<InputSymView>,
}

impl View for InputSection {
    type V = InputSectionView;

    open spec fn view(&self) -> InputSectionView {
        InputSectionView {
            name: self.name@,
            flags: self.flags.bits,
            addr: self.addr,
            align: self.align,
            size: self.size,
            syms: self.syms@.map_values(|s: InputSym| s@),
        }
    }
}

/// An input file: its name, identification and the sections kept from it.
#[derive(Debug)]
pub struct InputFile {
    pub name: String,
    pub ident: ElfIdent,
    pub sections: Vec<InputSection>,
}

/// The values of the sections of an input file.
pub open spec fn sections_view(v: Seq<InputSection>) -> Seq<InputSectionView> {
    v.map_values(|s: InputSection| s@)
}

/// `align_to - 1`, with an alignment of 0 taken as 1.
pub open spec fn mask_of(align_to: usize) -> usize {
    if align_to > 1 {
        (align_to - 1) as usize
    } else {
        0
    }
}

/// Whether `what` can be rounded up by `align_to` without overflow.
pub open spec fn can_align(what: usize, align_to: usize) -> bool {
    what + mask_of(align_to) <= usize::MAX
}

/// `what` rounded up by the alignment mask: `(what + mask) & !mask`.
pub open spec fn align_up(what: usize, align_to: usize) -> usize {
    ((what + mask_of(align_to)) as usize) & !mask_of(align_to)
}

/// Rounds `what` up with the mask `align_to - 1` (an alignment of 0 counts
/// as 1); exact for powers of two (see `lemma_align_pow2`).
fn align(what: usize, align_to: usize) -> (r: usize)
    requires
        can_align(what, align_to),
    ensures
        r == align_up(what, align_to),
{
    let align_to: usize = if align_to > 1 { align_to } else { 1 };
    let aligned: usize = (what + (align_to - 1)) & !(align_to - 1);
    aligned
}

/// For a power-of-two alignment, `align_up` is the least multiple of the
/// alignment that is not below `what`.
pub proof fn lemma_align_pow2(what: usize, align_to: usize, k: nat)
    requires
        k < usize::BITS,
        align_to == vstd::arithmetic::power2::pow2(k),
        can_align(what, align_to),
    ensures
        align_up(what, align_to) % align_to == 0,
        what <= align_up(what, align_to),
        align_up(what, align_to) < what + align_to,
{
    vstd::bits::lemma_usize_pow2_no_overflow(k);
    vstd::arithmetic::power2::lemma_pow2_pos(k);
    let m: usize = (align_to - 1) as usize;
    assert(mask_of(align_to) == m);
    let x: usize = (what + m) as usize;
    vstd::bits::lemma_usize_low_bits_mask_is_mod(x, k);
    assert((vstd::bits::low_bits_mask(k) as usize) == m);
    assert(x & m == x % align_to);
    assert((x & !m) + (x & m) == x) by (bit_vector);
    let y: usize = x & !m;
    assert(y == x - x % align_to);
    vstd::arithmetic::div_mod::lemma_fundamental_div_mod(x as int, align_to as int);
    vstd::arithmetic::div_mod::lemma_mod_multiples_basic(x as int / align_to as int, align_to as int);
    vstd::arithmetic::mul::lemma_mul_is_commutative(align_to as int, x as int / align_to as int);
}

/// Rounding up is idempotent for an alignment of 0, 1 or a power of two:
/// a rounded value can be rounded again, and stays as it is.
pub proof fn lemma_align_idempotent(what: usize, align_to: usize)
    requires
        align_to <= 1 || align_to & ((align_to - 1) as usize) == 0,
        can_align(what, align_to),
    ensures
        can_align(align_up(what, align_to), align_to),
        align_up(align_up(what, align_to), align_to) == align_up(what, align_to),
{
    if align_to <= 1 {
        assert(mask_of(align_to) == 0);
        assert(what & !0usize == what) by (bit_vector);
    } else {
        let m: usize = (align_to - 1) as usize;
        assert(mask_of(align_to) == m);
        let y: usize = ((what + m) as usize) & !m;
        assert(what + m == (what + m) as usize);
        assert(((y + m) as usize) as int == y + m && ((y + m) as usize) & !m == y) by (bit_vector)
            requires
                align_to > 1,
                m == align_to - 1,
                align_to & m == 0,
                what + m == (what + m) as usize,
                y == ((what + m) as usize) & !m,
        ;
    }
}

/// The segment flags that a section's flags call for: readable (`PF_R`, 4)
/// when it occupies memory (`SHF_ALLOC`, 2), writable (`PF_W`, 2) when it is
/// writable (`SHF_WRITE`, 1), executable (`PF_X`, 1) when it holds
/// instructions (`SHF_EXECINSTR`, 4).
pub open spec fn phf_of(shf: u32) -> u32 {
    (if shf & 2 == 2 { 4u32 } else { 0u32 }) | (if shf & 1 == 1 { 2u32 } else { 0u32 }) | (if shf
        & 4 == 4 { 1u32 } else { 0u32 })
}

/// The segment flags a section calls for, bit by bit: readable (`PF_R`, 4)
/// exactly when the section occupies memory (`SHF_ALLOC`, 2), writable
/// (`PF_W`, 2) exactly when it is writable (`SHF_WRITE`, 1), executable
/// (`PF_X`, 1) exactly when it holds instructions (`SHF_EXECINSTR`, 4), and
/// no other bit.
pub proof fn lemma_segment_flag_bits(shf: u32)
    ensures
        (phf_of(shf) & 4 == 4) == (shf & 2 == 2),
        (phf_of(shf) & 2 == 2) == (shf & 1 == 1),
        (phf_of(shf) & 1 == 1) == (shf & 4 == 4),
        phf_of(shf) & !7u32 == 0,
{
    let r = phf_of(shf);
    assert((r & 4 == 4) == (shf & 2 == 2) && (r & 2 == 2) == (shf & 1 == 1) && (r & 1 == 1) == (shf
        & 4 == 4) && r & !7u32 == 0) by (bit_vector)
        requires
            r == (if shf & 2 == 2 { 4u32 } else { 0u32 }) | (if shf & 1 == 1 { 2u32 } else { 0u32 })
                | (if shf & 4 == 4 { 1u32 } else { 0u32 }),
    ;
}

/// The segment flags for a section with flags `shf`.
fn shf_to_phf(shf: section::Flags) -> (r: segment::Flags)
    ensures
        r.bits == phf_of(shf.bits),
        (r.bits & 4 == 4) == (shf.bits & 2 == 2),
        (r.bits & 2 == 2) == (shf.bits & 1 == 1),
        (r.bits & 1 == 1) == (shf.bits & 4 == 4),
        r.bits & !7u32 == 0,
{
    proof {
        lemma_segment_flag_bits(shf.bits);
    }
    let mut res = segment::Flags::empty();
    if shf.contains(section::Flags::from_bits_retain(section::ALLOC)) {
        res.insert(segment::Flags::from_bits_retain(segment::READ));
    }
    let ghost r1 = res.bits;
    if shf.contains(section::Flags::from_bits_retain(section::WRITE)) {
        res.insert(segment::Flags::from_bits_retain(segment::WRITE));
    }
    let ghost r2 = res.bits;
    if shf.contains(section::Flags::from_bits_retain(section::EXEC_INSTR)) {
        res.insert(segment::Flags::from_bits_retain(segment::EXEC));
    }
    let ghost r3 = res.bits;
    let ghost a: u32 = if shf.bits & 2 == 2 { 4u32 } else { 0u32 };
    let ghost b: u32 = if shf.bits & 1 == 1 { 2u32 } else { 0u32 };
    let ghost c: u32 = if shf.bits & 4 == 4 { 1u32 } else { 0u32 };
    assert(r1 == 0 | a) by (bit_vector)
        requires
            a == 0 || a == 4,
            r1 == (if a == 4 { 0u32 | 4u32 } else { 0u32 }),
    ;
    assert(r2 == (0 | a) | b) by (bit_vector)
        requires
            r1 == 0 | a,
            b == 0 || b == 2,
            r2 == (if b == 2 { r1 | 2u32 } else { r1 }),
    ;
    assert(r3 == ((0 | a) | b) | c) by (bit_vector)
        requires
            r2 == (0 | a) | b,
            c == 0 || c == 1,
            r3 == (if c == 1 { r2 | 1u32 } else { r2 }),
    ;
    let ghost x: u32 = shf.bits;
    assert(((0 | a) | b) | c == phf_of(x)) by (bit_vector)
        requires
            a == (if x & 2 == 2 { 4u32 } else { 0u32 }),
            b == (if x & 1 == 1 { 2u32 } else { 0u32 }),
            c == (if x & 4 == 4 { 1u32 } else { 0u32 }),
    ;
    res
}

/// The index of the first nul byte of `table` at or after `start`, if any.
pub open spec fn first_nul(table: Seq<u8>, start: int) -> Option<int>
    decreases table.len() - start,
{
    if start < 0 || start >= table.len() {
        None
    } else if table[start] == 0 {
        Some(start)
    } else {
        first_nul(table, start + 1)
    }
}

/// The nul-terminated name at `start` in a string table, without its nul:
/// an error when `start` is past the end of the table or no nul follows.
pub open spec fn name_at(table: Seq<u8>, start: int) -> Result<Seq<u8>, LinkError> {
    if start > table.len() {
        Err(LinkError::NameOutOfBounds)
    } else {
        match first_nul(table, start) {
            Some(e) => Ok(table.subrange(start, e)),
            None => Err(LinkError::UnterminatedName),
        }
    }
}

/// A name read from a string table is the run of bytes from its start up
/// to the first nul byte: it holds no nul, and a nul follows it in the
/// table.
pub proof fn lemma_name_is_nul_terminated(table: Seq<u8>, start: int)
    requires
        0 <= start,
        name_at(table, start) is Ok,
    ensures
        ({
            let n = name_at(table, start)->Ok_0;
            &&& start + n.len() < table.len()
            &&& n == table.subrange(start, start + n.len())
            &&& forall|i: int| 0 <= i < n.len() ==> n[i] != 0
            &&& table[start + n.len()] == 0
        }),
{
    lemma_first_nul_bounds(table, start);
}

proof fn lemma_first_nul_bounds(table: Seq<u8>, start: int)
    ensures
        first_nul(table, start) matches Some(e) ==> (start <= e < table.len() && table[e] == 0
            && forall|j: int| start <= j < e ==> table[j] != 0),
    decreases table.len() - start,
{
    if start < 0 || start >= table.len() {
    } else if table[start] == 0 {
    } else {
        lemma_first_nul_bounds(table, start + 1);
    }
}

/// A string table that is found is a section of type `SHT_STRTAB` with no
/// flags, other than the first section, and its bytes are those of the
/// file from the section's offset, as many as its size.
pub proof fn lemma_strtab_found(data: Seq<u8>, sections: Seq<section::Header>, idx: int)
    requires
        0 <= idx,
        strtab_at(data, sections, idx) is Ok,
    ensures
        0 < idx < sections.len(),
        sections[idx].typ == section::Type::Strtab,
        sections[idx].flags.bits == 0,
        sections[idx].offset + sections[idx].size <= data.len(),
        strtab_at(data, sections, idx)->Ok_0.len() == sections[idx].size,
        forall|i: int|
            0 <= i < sections[idx].size ==> strtab_at(data, sections, idx)->Ok_0[i] == data[sections[idx].offset + i],
{
}

/// Reads the nul-terminated name at `start` of a string table.
fn read_name(table: &[u8], start: usize) -> (r: Result<Vec<u8>, LinkError>)
    ensures
        match r {
            Ok(name) => name_at(table@, start as int) == Ok::<Seq<u8>, LinkError>(name@),
            Err(e) => name_at(table@, start as int) == Err::<Seq<u8>, LinkError>(e),
        },
{
    if start > table.len() {
        return Err(LinkError::NameOutOfBounds);
    }
    let mut name: Vec<u8> = Vec::new();
    let mut i: usize = start;
    while i < table.len()
        invariant
            start <= i <= table@.len(),
            forall|j: int| start <= j < i ==> table@[j] != 0,
            name@ =~= table@.subrange(start as int, i as int),
            first_nul(table@, start as int) == first_nul(table@, i as int),
        decreases table.len() - i,
    {
        if table[i] == 0 {
            return Ok(name);
        }
        name.push(table[i]);
        i = i + 1;
        assert(name@ =~= table@.subrange(start as int, i as int));
    }
    Err(LinkError::UnterminatedName)
}

/// The string table at section index `idx`: an error when the index is 0
/// or past the section headers, when the section has flags or is not of
/// type `SHT_STRTAB`, or when its bytes reach past the end of `data`.
pub open spec fn strtab_at(data: Seq<u8>, sections: Seq<section::Header>, idx: int) -> Result<
    Seq<u8>,
    LinkError,
> {
    if idx == 0 {
        Err(LinkError::MissingStringTable)
    } else if idx >= sections.len() {
        Err(LinkError::StringTableIndexOutOfRange)
    } else if sections[idx].flags.bits != 0 {
        Err(LinkError::StringTableHasFlags)
    } else if sections[idx].typ != section::Type::Strtab {
        Err(LinkError::NotAStringTable)
    } else if sections[idx].offset > data.len() || sections[idx].size > data.len()
        - sections[idx].offset {
        Err(LinkError::StringTableOutOfBounds)
    } else {
        Ok(data.subrange(sections[idx].offset as int, sections[idx].offset + sections[idx].size))
    }
}

/// Checks that section `idx` of `parsed` is a string table within `data`:
/// the error that `strtab_at` gives, if any.
fn check_strtab(data: &[u8], parsed: &ElfFile<'_>, idx: usize) -> (r: Result<(), LinkError>)
    ensures
        match r {
            Ok(_) => strtab_at(data@, parsed.sections@, idx as int) is Ok,
            Err(e) => strtab_at(data@, parsed.sections@, idx as int) == Err::<Seq<u8>, LinkError>(e),
        },
{
    if idx == 0 {
        return Err(LinkError::MissingStringTable);
    }
    if idx >= parsed.sections.len() {
        return Err(LinkError::StringTableIndexOutOfRange);
    }
    let shstrtab = &parsed.sections[idx];
    if shstrtab.flags.bits() != 0 {
        return Err(LinkError::StringTableHasFlags);
    }
    match shstrtab.typ {
        section::Type::Strtab => {},
        _ => {
            return Err(LinkError::NotAStringTable);
        },
    }
    if shstrtab.offset > data.len() || shstrtab.size > data.len() - shstrtab.offset {
        return Err(LinkError::StringTableOutOfBounds);
    }
    Ok(())
}

/// The bytes of the string table at section index `idx` of `parsed`, which
/// must be one (`check_strtab` tells).
fn extract_strtab<'a>(data: &'a [u8], parsed: &ElfFile<'_>, idx: usize) -> (t: &'a [u8])
    requires
        strtab_at(data@, parsed.sections@, idx as int) is Ok,
    ensures
        strtab_at(data@, parsed.sections@, idx as int) == Ok::<Seq<u8>, LinkError>(t@),
{
    let shstrtab = &parsed.sections[idx];
    assert(data@.len() == data.len());
    &data[shstrtab.offset..shstrtab.offset + shstrtab.size]
}

/// The first error among the names of the first `k` symbols that belong to
/// section `i`, if any.
pub open spec fn syms_error(symstrtab: Seq<u8>, syms: Seq<Sym>, i: int, k: nat) -> Option<LinkError>
    decreases k,
{
    if k == 0 || k > syms.len() {
        None
    } else {
        match syms_error(symstrtab, syms, i, (k - 1) as nat) {
            Some(e) => Some(e),
            None => {
                let s = syms[k - 1];
                if s.shndx as int != i {
                    None
                } else {
                    match name_at(symstrtab, s.name as int) {
                        Err(e) => Some(e),
                        Ok(_) => None,
                    }
                }
            },
        }
    }
}

/// What becomes of section header `i`: an error for `SHF_LINK_ORDER`, for
/// an unreadable name or for an unreadable name of one of its symbols;
/// nothing for a section that is not `SHT_PROGBITS`; else the section with
/// its name, flags, address, alignment and size, and no symbols.
pub open spec fn input_section_of(
    shstrtab: Seq<u8>,
    symstrtab: Seq<u8>,
    sec: section::Header,
    i: int,
    syms: Seq<Sym>,
) -> Result<Option<InputSectionView>, LinkError> {
    if sec.flags.bits & section::LINK_ORDER == section::LINK_ORDER {
        Err(LinkError::LinkOrderUnsupported)
    } else {
        match name_at(shstrtab, sec.name as int) {
            Err(e) => Err(e),
            Ok(name) => if sec.typ != section::Type::Progbits {
                Ok(None)
            } else {
                match syms_error(symstrtab, syms, i, syms.len()) {
                    Some(e) => Err(e),
                    None => Ok(
                        Some(
                            InputSectionView {
                                name,
                                flags: sec.flags.bits,
                                addr: sec.addr as usize,
                                align: sec.align as usize,
                                size: sec.size,
                                syms: Seq::empty(),
                            },
                        ),
                    ),
                }
            },
        }
    }
}

/// The sections kept from the first `k` section headers, or the first error.
pub open spec fn input_sections_of(
    shstrtab: Seq<u8>,
    symstrtab: Seq<u8>,
    secs: Seq<section::Header>,
    syms: Seq<Sym>,
    k: nat,
) -> Result<Seq<InputSectionView>, LinkError>
    decreases k,
{
    if k == 0 || k > secs.len() {
        Ok(Seq::empty())
    } else {
        match input_sections_of(shstrtab, symstrtab, secs, syms, (k - 1) as nat) {
            Err(e) => Err(e),
            Ok(acc) => match input_section_of(shstrtab, symstrtab, secs[k - 1], k - 1, syms) {
                Err(e) => Err(e),
                Ok(None) => Ok(acc),
                Ok(Some(s)) => Ok(acc.push(s)),
            },
        }
    }
}

/// The sections that a read object file contributes: an error unless it is
/// relocatable and both its section name table and its symbol name table
/// can be found; else the kept sections of `input_sections_of`.
pub open spec fn input_sections(data: Seq<u8>, parsed: ElfFileView) -> Result<Seq<InputSectionView>, LinkError> {
    if parsed.header.typ != elf::Type::Relocatable {
        Err(LinkError::NotRelocatable)
    } else {
        match strtab_at(data, parsed.sections, parsed.header.shstrndx as int) {
            Err(e) => Err(e),
            Ok(sh) => match strtab_at(data, parsed.sections, parsed.symtab_strtab as int) {
                Err(e) => Err(e),
                Ok(st) => input_sections_of(sh, st, parsed.sections, parsed.syms, parsed.sections.len()),
            },
        }
    }
}

/// The sections that the object file in `data` contributes: `Malformed`
/// where it cannot be read as an ELF file, else those of `input_sections`.
pub open spec fn object_sections(data: Seq<u8>) -> Result<Seq<InputSectionView>, LinkError> {
    match elf_at(data) {
        None => Err(LinkError::Malformed),
        Some(v) => input_sections(data, v),
    }
}

/// The identification taken from a file header.
pub open spec fn ident_of(h: elf::Header) -> ElfIdent {
    ElfIdent {
        class: h.class,
        endianness: h.endianness,
        os_abi: h.os_abi,
        abi_version: h.abi_version,
        machine: h.machine,
    }
}

proof fn lemma_syms_error_stays(symstrtab: Seq<u8>, syms: Seq<Sym>, i: int, k: nat, n: nat)
    requires
        k <= n <= syms.len(),
        syms_error(symstrtab, syms, i, k) is Some,
    ensures
        syms_error(symstrtab, syms, i, n) == syms_error(symstrtab, syms, i, k),
    decreases n - k,
{
    if n > k {
        lemma_syms_error_stays(symstrtab, syms, i, k, (n - 1) as nat);
    }
}

proof fn lemma_sections_error_stays(
    shstrtab: Seq<u8>,
    symstrtab: Seq<u8>,
    secs: Seq<section::Header>,
    syms: Seq<Sym>,
    k: nat,
    n: nat,
)
    requires
        k <= n <= secs.len(),
        input_sections_of(shstrtab, symstrtab, secs, syms, k) is Err,
    ensures
        input_sections_of(shstrtab, symstrtab, secs, syms, n) == input_sections_of(
            shstrtab,
            symstrtab,
            secs,
            syms,
            k,
        ),
    decreases n - k,
{
    if n > k {
        lemma_sections_error_stays(shstrtab, symstrtab, secs, syms, k, (n - 1) as nat);
    }
}

/// Reads the names of the symbols of section `i`, as far as they go.
fn section_syms(sym_strtab: &[u8], syms: &Vec<Sym>, i: usize) -> (r: Result<Vec<InputSym>, LinkError>)
    ensures
        match r {
            Ok(_) => syms_error(sym_strtab@, syms@, i as int, syms@.len()) is None,
            Err(e) => syms_error(sym_strtab@, syms@, i as int, syms@.len()) == Some(e),
        },
{
    let mut out: Vec<InputSym> = Vec::new();
    let mut j: usize = 0;
    while j < syms.len()
        invariant
            j <= syms@.len(),
            syms_error(sym_strtab@, syms@, i as int, j as nat) is None,
        decreases syms.len() - j,
    {
        let sym = &syms[j];
        if sym.shndx as usize != i {
            j = j + 1;
            continue;
        }
        let name = match read_name(sym_strtab, sym.name as usize) {
            Ok(name) => name,
            Err(e) => {
                proof {
                    lemma_syms_error_stays(sym_strtab@, syms@, i as int, (j + 1) as nat, syms@.len());
                }
                return Err(e);
            },
        };
        out.push(
            InputSym {
                name,
                bind: sym.bind,
                typ: sym.typ,
                other: sym.other,
                value: sym.value,
                size: sym.size,
            },
        );
        j = j + 1;
    }
    Ok(out)
}

/// The section headers of type `SHT_PROGBITS`, in order.
pub open spec fn progbits_headers(secs: Seq<section::Header>) -> Seq<section::Header> {
    secs.filter(|h: section::Header| h.typ == section::Type::Progbits)
}

/// `s` is what section header `h` gives, with its name read from the
/// section name table `shstrtab`: the same flags, address, alignment and
/// size, and no symbols.
pub open spec fn taken_from(s: InputSectionView, h: section::Header, shstrtab: Seq<u8>) -> bool {
    &&& name_at(shstrtab, h.name as int) == Ok::<Seq<u8>, LinkError>(s.name)
    &&& s.flags == h.flags.bits
    &&& s.addr == h.addr as usize
    &&& s.align == h.align as usize
    &&& s.size == h.size
    &&& s.syms.len() == 0
}

proof fn lemma_kept_are_progbits(
    shstrtab: Seq<u8>,
    symstrtab: Seq<u8>,
    secs: Seq<section::Header>,
    syms: Seq<Sym>,
    k: nat,
)
    requires
        k <= secs.len(),
        input_sections_of(shstrtab, symstrtab, secs, syms, k) is Ok,
    ensures
        ({
            let acc = input_sections_of(shstrtab, symstrtab, secs, syms, k)->Ok_0;
            let p = progbits_headers(secs.take(k as int));
            &&& acc.len() == p.len()
            &&& forall|j: int| 0 <= j < acc.len() ==> taken_from(#[trigger] acc[j], p[j], shstrtab)
        }),
    decreases k,
{
    reveal(Seq::filter);
    let pred = |h: section::Header| h.typ == section::Type::Progbits;
    if k == 0 {
        assert(secs.take(0) =~= Seq::<section::Header>::empty());
    } else {
        lemma_kept_are_progbits(shstrtab, symstrtab, secs, syms, (k - 1) as nat);
        let t = secs.take(k as int);
        assert(t.drop_last() =~= secs.take(k - 1));
        assert(t.last() == secs[k - 1]);
        let acc0 = input_sections_of(shstrtab, symstrtab, secs, syms, (k - 1) as nat)->Ok_0;
        let p0 = progbits_headers(secs.take(k - 1));
        assert(progbits_headers(t) == t.filter(pred));
        assert(p0 == secs.take(k - 1).filter(pred));
        let acc = input_sections_of(shstrtab, symstrtab, secs, syms, k)->Ok_0;
        let p = progbits_headers(t);
        if secs[k - 1].typ == section::Type::Progbits {
            assert(p == p0.push(secs[k - 1]));
            assert(acc.len() == acc0.len() + 1);
            assert forall|j: int| 0 <= j < acc.len() implies taken_from(#[trigger] acc[j], p[j], shstrtab) by {
                if j < acc0.len() {
                    assert(acc[j] == acc0[j]);
                    assert(p[j] == p0[j]);
                }
            }
        } else {
            assert(p == p0);
            assert(acc == acc0);
        }
    }
}

/// The sections that an object file contributes are exactly those of its
/// section headers of type `SHT_PROGBITS`, one for each and in their
/// order, each with the flags, address, alignment and size of its header
/// and its name from the section name table. The file is relocatable.
pub proof fn lemma_object_keeps_progbits(data: Seq<u8>)
    requires
        object_sections(data) is Ok,
    ensures
        ({
            let v = elf_at(data)->0;
            let kept = object_sections(data)->Ok_0;
            let p = progbits_headers(v.sections);
            &&& elf_at(data) is Some
            &&& v.header.typ == elf::Type::Relocatable
            &&& strtab_at(data, v.sections, v.header.shstrndx as int) is Ok
            &&& kept.len() == p.len()
            &&& forall|j: int|
                0 <= j < kept.len() ==> taken_from(
                    #[trigger] kept[j],
                    p[j],
                    strtab_at(data, v.sections, v.header.shstrndx as int)->Ok_0,
                )
        }),
{
    let v = elf_at(data)->0;
    let sh = strtab_at(data, v.sections, v.header.shstrndx as int)->Ok_0;
    let st = strtab_at(data, v.sections, v.symtab_strtab as int)->Ok_0;
    lemma_kept_are_progbits(sh, st, v.sections, v.syms, v.sections.len());
    assert(v.sections.take(v.sections.len() as int) =~= v.sections);
}

/// Reads the sections that an object file contributes to the link, from
/// the file's bytes `data` and their parsed form `parsed`.
pub fn process_parsed_file(path: String, data: &[u8], parsed: &ElfFile) -> (r: Result<
    InputFile,
    LinkError,
>)
    ensures
        match r {
            Ok(f) => {
                &&& input_sections(data@, file_view(*parsed)) == Ok::<Seq<InputSectionView>, LinkError>(
                    sections_view(f.sections@),
                )
                &&& f.name@ == path@
                &&& f.ident == ident_of(parsed.header)
            },
            Err(e) => input_sections(data@, file_view(*parsed)) == Err::<Seq<InputSectionView>, LinkError>(e),
        },
{
    match parsed.header.typ {
        elf::Type::Relocatable => {},
        _ => {
            return Err(LinkError::NotRelocatable);
        },
    }
    check_strtab(data, parsed, parsed.header.shstrndx as usize)?;
    check_strtab(data, parsed, parsed.symtab_strtab)?;
    let shstrtab = extract_strtab(data, parsed, parsed.header.shstrndx as usize);
    let sym_strtab = extract_strtab(data, parsed, parsed.symtab_strtab);
    let mut sections: Vec<InputSection> = Vec::new();
    let mut i: usize = 0;
    assert(sections_view(sections@) =~= Seq::<InputSectionView>::empty());
    while i < parsed.sections.len()
        invariant
            i <= parsed.sections@.len(),
            parsed.header.typ == elf::Type::Relocatable,
            strtab_at(data@, parsed.sections@, parsed.header.shstrndx as int) == Ok::<Seq<u8>, LinkError>(shstrtab@),
            strtab_at(data@, parsed.sections@, parsed.symtab_strtab as int) == Ok::<Seq<u8>, LinkError>(sym_strtab@),
            input_sections_of(shstrtab@, sym_strtab@, parsed.sections@, parsed.syms@, i as nat)
                == Ok::<Seq<InputSectionView>, LinkError>(sections_view(sections@)),
        decreases parsed.sections.len() - i,
    {
        let sec = &parsed.sections[i];
        if sec.flags.contains(section::Flags::from_bits_retain(section::LINK_ORDER)) {
            proof {
                lemma_sections_error_stays(shstrtab@, sym_strtab@, parsed.sections@, parsed.syms@, (i + 1) as nat, parsed.sections@.len());
            }
            return Err(LinkError::LinkOrderUnsupported);
        }
        let name = match read_name(shstrtab, sec.name) {
            Ok(name) => name,
            Err(e) => {
                proof {
                    lemma_sections_error_stays(shstrtab@, sym_strtab@, parsed.sections@, parsed.syms@, (i + 1) as nat, parsed.sections@.len());
                }
                return Err(e);
            },
        };
        match sec.typ {
            section::Type::Progbits => {},
            _ => {
                i = i + 1;
                continue;
            },
        }
        // The symbols of the section are read, so that an unreadable name
        // is reported, but the section is kept without them.
        let _syms = match section_syms(sym_strtab, &parsed.syms, i) {
            Ok(syms) => syms,
            Err(e) => {
                proof {
                    lemma_sections_error_stays(shstrtab@, sym_strtab@, parsed.sections@, parsed.syms@, (i + 1) as nat, parsed.sections@.len());
                }
                return Err(e);
            },
        };
        let ghost before = sections@;
        sections.push(
            InputSection {
                name,
                flags: sec.flags,
                addr: sec.addr as usize,
                align: sec.align as usize,
                size: sec.size,
                syms: Vec::new(),
            },
        );
        proof {
            assert(sections_view(sections@) =~= sections_view(before).push(sections@.last()@));
            assert(sections@.last()@.syms =~= Seq::<InputSymView>::empty());
        }
        i = i + 1;
    }
    Ok(
        InputFile {
            name: path,
            ident: ElfIdent {
                class: parsed.header.class,
                endianness: parsed.header.endianness,
                os_abi: parsed.header.os_abi,
                abi_version: parsed.header.abi_version,
                machine: parsed.header.machine,
            },
            sections,
        },
    )
}

/// Reads the sections that the object file `data` contributes to the link;
/// the file is named `path`. The file must be one that can be linked
/// (`try_process_input_file` says which can).
pub fn process_input_file(path: String, data: &[u8]) -> (f: InputFile)
    requires
        object_sections(data@) is Ok,
    ensures
        object_sections(data@) == Ok::<Seq<InputSectionView>, LinkError>(sections_view(f.sections@)),
        f.name@ == path@,
        f.ident == ident_of(elf_at(data@)->0.header),
{
    match try_process_input_file(path, data) {
        Ok(f) => f,
        Err(_) => vstd::pervasive::unreached(),
    }
}

/// Reads the sections that the object file `data` contributes to the link
/// as `process_input_file` does, or tells why the file cannot be linked.
pub fn try_process_input_file(path: String, data: &[u8]) -> (r: Result<InputFile, LinkError>)
    ensures
        match r {
            Ok(f) => {
                &&& object_sections(data@) == Ok::<Seq<InputSectionView>, LinkError>(sections_view(f.sections@))
                &&& f.name@ == path@
                &&& f.ident == ident_of(elf_at(data@)->0.header)
            },
            Err(e) => object_sections(data@) == Err::<Seq<InputSectionView>, LinkError>(e),
        },
{
    match parse(data) {
        Some(parsed) => process_parsed_file(path, data, &parsed),
        None => Err(LinkError::Malformed),
    }
}

/// An output section: the input sections merged into it, in the order they
/// came, with its size, alignment and flags.
#[derive(Debug, PartialEq, Eq)]
pub struct OutputSection {
    pub name: String,
    pub input_sections: Vec<InputSection>,
    pub size: usize,
    pub align: usize,
    pub flags: section::Flags,
}

/// The value of an output section.
pub struct OutputSectionView {
    pub name: Seq<char>,
    pub input_sections: Seq<InputSectionView>,
    pub size: usize,
    pub align: usize,
    pub flags: u32,
}

impl View for OutputSection {
    type V = OutputSectionView;

    open spec fn view(&self) -> OutputSectionView {
        OutputSectionView {
            name: self.name@,
            input_sections: sections_view(self.input_sections@),
            size: self.size,
            align: self.align,
            flags: self.flags.bits,
        }
    }
}

/// An output section named `name` that holds nothing yet.
pub open spec fn empty_output(name: Seq<char>) -> OutputSectionView {
    OutputSectionView { name, input_sections: Seq::empty(), size: 0, align: 0, flags: 0 }
}

/// `out` after taking in `sec`: the section goes at the end, placed at the
/// output's size rounded up by the section's alignment; the output grows to
/// the end of the section, takes the larger alignment and the union of the
/// flags. `None` where the size does not fit in a machine word.
pub open spec fn absorb(out: OutputSectionView, sec: InputSectionView) -> Option<OutputSectionView> {
    if !can_align(out.size, sec.align) {
        None
    } else if align_up(out.size, sec.align) + sec.size > usize::MAX {
        None
    } else {
        Some(
            OutputSectionView {
                name: out.name,
                input_sections: out.input_sections.push(sec),
                size: (align_up(out.size, sec.align) + sec.size) as usize,
                align: if out.align >= sec.align {
                    out.align
                } else {
                    sec.align
                },
                flags: out.flags | sec.flags,
            },
        )
    }
}

/// The output sections after one more input section, keyed by the index of
/// the pattern it matched and with that pattern's output name: the section
/// goes into the output of its key, which is added at the end the first
/// time the key comes up.
pub open spec fn merge_step(
    es: Seq<(usize, OutputSectionView)>,
    item: (usize, Seq<char>, InputSectionView),
) -> Option<Seq<(usize, OutputSectionView)>> {
    let i = first_index(keys_of(es), item.0);
    if i >= 0 {
        match absorb(es[i].1, item.2) {
            None => None,
            Some(o) => Some(es.update(i, (item.0, o))),
        }
    } else {
        match absorb(empty_output(item.1), item.2) {
            None => None,
            Some(o) => Some(es.push((item.0, o))),
        }
    }
}

/// The output sections, with their keys, in the order their keys first
/// came up, after merging `items` in order; `None` on overflow.
pub open spec fn merge_entries(items: Seq<(usize, Seq<char>, InputSectionView)>) -> Option<
    Seq<(usize, OutputSectionView)>,
>
    decreases items.len(),
{
    if items.len() == 0 {
        Some(Seq::empty())
    } else {
        match merge_entries(items.drop_last()) {
            None => None,
            Some(es) => merge_step(es, items.last()),
        }
    }
}

/// The output sections made from `items`, in ascending order of their keys
/// (the order of the patterns in the configuration); `None` on overflow.
pub open spec fn grouped(items: Seq<(usize, Seq<char>, InputSectionView)>) -> Option<
    Seq<OutputSectionView>,
> {
    match merge_entries(items) {
        None => None,
        Some(es) => Some(values_by_key(es)),
    }
}

/// `indexmap::IndexMap`, a hash map that keeps its entries in insertion
/// order.
#[verifier::external_type_specification]
#[verifier::external_body]
#[verifier::reject_recursive_types(K)]
#[verifier::reject_recursive_types(V)]
#[verifier::reject_recursive_types(S)]
pub struct ExIndexMap<K, V, S>(indexmap::IndexMap<K, V, S>);

/// The entries of a map from keys to output sections, in the map's order.
pub uninterp spec fn index_map_entries(m: indexmap::IndexMap<usize, OutputSection>) -> Seq<
    (usize, OutputSection),
>;

/// `indexmap::IndexMap::new`: a map without entries.
#[verifier::external_body]
fn index_map_new() -> (m: indexmap::IndexMap<usize, OutputSection>)
    ensures
        index_map_entries(m) == Seq::<(usize, OutputSection)>::empty(),
{
    indexmap::IndexMap::new()
}

/// `indexmap::IndexMap::entry` followed by `Entry::or_insert`: the value
/// of `key`, inserted as `default` at the end of the entries when the key
/// is not there yet. Claims that the returned reference is to that entry:
/// whatever is written through it becomes the entry's value, and nothing
/// else changes.
#[verifier::external_body]
fn index_map_entry_or_insert(
    m: &mut indexmap::IndexMap<usize, OutputSection>,
    key: usize,
    default: OutputSection,
) -> (v: &mut OutputSection)
    ensures
        ({
            let es = index_map_entries(*old(m));
            let i = first_index(keys_of(es), key);
            if i >= 0 {
                &&& *v == es[i].1
                &&& index_map_entries(*final(m)) == es.update(i, (key, *final(v)))
            } else {
                &&& *v == default
                &&& index_map_entries(*final(m)) == es.push((key, *final(v)))
            }
        }),
{
    m.entry(key).or_insert(default)
}

/// The order of two keys.
fn key_order(a: &usize, b: &usize) -> (r: core::cmp::Ordering)
    ensures
        (r == core::cmp::Ordering::Less) == (*a < *b),
        (r == core::cmp::Ordering::Equal) == (*a == *b),
        (r == core::cmp::Ordering::Greater) == (*a > *b),
{
    if *a < *b {
        core::cmp::Ordering::Less
    } else if *a == *b {
        core::cmp::Ordering::Equal
    } else {
        core::cmp::Ordering::Greater
    }
}

/// `indexmap::IndexMap::sorted_unstable_by` with `key_order`, collected:
/// the entries in ascending order of their keys. Claims what a sort gives:
/// the same entries, ordered by key.
#[verifier::external_body]
fn index_map_sorted_by_key(m: indexmap::IndexMap<usize, OutputSection>) -> (r: Vec<
    (usize, OutputSection),
>)
    ensures
        r@.to_multiset() == index_map_entries(m).to_multiset(),
        forall|i: int, j: int| 0 <= i < j < r@.len() ==> r@[i].0 <= r@[j].0,
{
    m.sorted_unstable_by(|k1, _, k2, _| key_order(k1, k2)).collect()
}

/// The values of keyed items: key, output name and input section.
pub open spec fn items_view(items: Seq<(usize, String, InputSection)>) -> Seq<
    (usize, Seq<char>, InputSectionView),
> {
    items.map_values(|t: (usize, String, InputSection)| (t.0, t.1@, t.2@))
}

/// The values of output sections.
pub open spec fn outputs_view(v: Seq<OutputSection>) -> Seq<OutputSectionView> {
    v.map_values(|o: OutputSection| o@)
}

/// The values of keyed output sections.
pub open spec fn entries_view(es: Seq<(usize, OutputSection)>) -> Seq<(usize, OutputSectionView)> {
    es.map_values(|e: (usize, OutputSection)| (e.0, e.1@))
}

proof fn lemma_merge_none_stays(items: Seq<(usize, Seq<char>, InputSectionView)>, k: int)
    requires
        0 <= k <= items.len(),
        merge_entries(items.take(k)) is None,
    ensures
        merge_entries(items) is None,
    decreases items.len() - k,
{
    if k < items.len() {
        assert(items.take(k + 1).drop_last() =~= items.take(k));
        lemma_merge_none_stays(items, k + 1);
    } else {
        assert(items.take(k) =~= items);
    }
}

/// Merges keyed input sections into output sections: each section goes,
/// in order, into the output of its key, placed at the output's size
/// rounded up by the section's alignment. The outputs come in ascending
/// order of their keys. Fails with `Overflow` when a size does not fit in
/// a machine word.
pub fn group_sections(items: Vec<(usize, String, InputSection)>) -> (r: Result<
    Vec<OutputSection>,
    LinkError,
>)
    ensures
        match r {
            Ok(v) => grouped(items_view(items@)) == Some(outputs_view(v@)),
            Err(e) => e == LinkError::Overflow && grouped(items_view(items@)) is None,
        },
{
    let ghost iv = items_view(items@);
    let mut sects = index_map_new();
    assert(entries_view(index_map_entries(sects)) =~= Seq::<(usize, OutputSectionView)>::empty());
    assert(iv.take(0) =~= Seq::<(usize, Seq<char>, InputSectionView)>::empty());
    for item in it: items
        invariant
            iv == items_view(items@),
            it.seq() == items@,
            merge_entries(iv.take(it.index() as int)) == Some(entries_view(index_map_entries(sects))),
            keys_of(index_map_entries(sects)).no_duplicates(),
    {
        let ghost k: int = it.index() as int;
        let ghost es = index_map_entries(sects);
        let ghost i = first_index(keys_of(es), item.0);
        proof {
            assert(iv.take(k + 1).drop_last() =~= iv.take(k));
            assert(iv[k] == (item.0, item.1@, item.2@));
            assert(keys_of(entries_view(es)) =~= keys_of(es));
            crate::sorting::lemma_first_index(keys_of(es), item.0);
        }
        let (key, name, sec) = item;
        let out = index_map_entry_or_insert(
            &mut sects,
            key,
            OutputSection {
                name,
                input_sections: Vec::new(),
                size: 0,
                align: 0,
                flags: section::Flags::empty(),
            },
        );
        let ghost before = *out;
        proof {
            if i < 0 {
                assert(sections_view(before.input_sections@) =~= Seq::<InputSectionView>::empty());
            }
        }
        let mask: usize = if sec.align > 1 { sec.align - 1 } else { 0 };
        if out.size > usize::MAX - mask {
            proof {
                lemma_merge_none_stays(iv, k + 1);
            }
            return Err(LinkError::Overflow);
        }
        let start = align(out.size, sec.align);
        if sec.size > usize::MAX - start {
            proof {
                lemma_merge_none_stays(iv, k + 1);
            }
            return Err(LinkError::Overflow);
        }
        out.flags.insert(sec.flags);
        out.align = if out.align >= sec.align { out.align } else { sec.align };
        out.size = start + sec.size;
        let ghost sv = sec@;
        out.input_sections.push(sec);
        proof {
            assert(sections_view(out.input_sections@) =~= sections_view(before.input_sections@).push(sv));
            assert(out@ == absorb(before@, sv)->0);
        }
        proof {
            let es2 = index_map_entries(sects);
            if i >= 0 {
                assert(keys_of(es2) =~= keys_of(es));
            } else {
                assert(keys_of(es2) =~= keys_of(es).push(key));
            }
        }
    }
    proof {
        assert(iv.take(iv.len() as int) =~= iv);
    }
    let ghost es = index_map_entries(sects);
    let sorted = index_map_sorted_by_key(sects);
    let mut outs: Vec<OutputSection> = Vec::new();
    for e in it: sorted
        invariant
            it.seq() == sorted@,
            outs@ == sorted@.take(it.index() as int).map_values(|e: (usize, OutputSection)| e.1),
    {
        let ghost j = it.index();
        outs.push(e.1);
        assert(sorted@.take(j + 1) =~= sorted@.take(j as int).push(e));
        assert(outs@ =~= sorted@.take(j + 1).map_values(|e: (usize, OutputSection)| e.1));
    }
    proof {
        assert(sorted@.take(sorted@.len() as int) =~= sorted@);
        crate::sorting::lemma_sorted_permutation(sorted@, es);
        let ev = entries_view(es);
        assert(keys_of(ev) =~= keys_of(es));
        assert forall|j: int| 0 <= j < outs@.len() implies #[trigger] outputs_view(outs@)[j]
            == values_by_key(ev)[j] by {
            assert(outs@[j] == sorted@[j].1);
            assert(values_by_key(es)[j] == sorted@[j].1);
        }
        assert(outputs_view(outs@) =~= values_by_key(ev));
    }
    Ok(outs)
}

/// The sections of the input files, file after file.
pub open spec fn file_sections(files: Seq<InputFile>) -> Seq<InputSection> {
    files.flat_map(|f: InputFile| f.sections@)
}

/// The sections that the configuration sends to an output, in order, each
/// with the index of the first pattern that matches its name and that
/// pattern's output name. Sections that no pattern matches are left out.
pub open spec fn keyed_by(cfg: Config, secs: Seq<InputSection>) -> Seq<
    (usize, Seq<char>, InputSectionView),
> {
    secs.filter_map(
        |s: InputSection|
            match cfg.match_of(s.name@) {
                Some((i, o)) => Some((i, o, s@)),
                None => None,
            },
    )
}

/// Merges the sections of the input files into output sections as the
/// configuration says: sections that a pattern matches go, in the order of
/// the files and of their sections, into the output of the first pattern
/// that matches them; sections that no pattern matches are ignored. The
/// outputs come in the order of their patterns in the configuration. Fails
/// with `Overflow` when a size does not fit in a machine word.
pub fn merge_sections(files: Vec<InputFile>, cfg: &Config) -> (r: Result<
    Vec<OutputSection>,
    LinkError,
>)
    ensures
        match r {
            Ok(v) => grouped(keyed_by(*cfg, file_sections(files@))) == Some(outputs_view(v@)),
            Err(e) => e == LinkError::Overflow && grouped(keyed_by(*cfg, file_sections(files@))) is None,
        },
{
    let ghost g = |s: InputSection|
        match cfg.match_of(s.name@) {
            Some((i, o)) => Some((i, o, s@)),
            None => None,
        };
    let ghost ff = |f: InputFile| f.sections@;
    let mut items: Vec<(usize, String, InputSection)> = Vec::new();
    assert(file_sections(files@.take(0)) =~= Seq::<InputSection>::empty());
    for file in fit: files
        invariant
            fit.seq() == files@,
            g == (|s: InputSection|
                match cfg.match_of(s.name@) {
                    Some((i, o)) => Some((i, o, s@)),
                    None => None,
                }),
            ff == (|f: InputFile| f.sections@),
            items_view(items@) == file_sections(files@.take(fit.index() as int)).filter_map(g),
    {
        let ghost fi = fit.index();
        let ghost done = file_sections(files@.take(fi as int));
        let InputFile { sections, .. } = file;
        assert(done + sections@.take(0) =~= done);
        for sec in sit: sections
            invariant
                sit.seq() == sections@,
                g == (|s: InputSection|
                    match cfg.match_of(s.name@) {
                        Some((i, o)) => Some((i, o, s@)),
                        None => None,
                    }),
                items_view(items@) == (done + sections@.take(sit.index() as int)).filter_map(g),
        {
            let ghost si = sit.index();
            let ghost before = items@;
            proof {
                assert(done + sections@.take(si + 1) =~= (done + sections@.take(si as int)).push(sec));
                assert((done + sections@.take(si + 1)).drop_last() =~= done + sections@.take(si as int));
            }
            match cfg.output_match(sec.name.as_slice()) {
                Some((i, out)) => {
                    let out: String = out.to_owned();
                    items.push((i, out, sec));
                    assert(items_view(items@) =~= items_view(before).push((i, out@, sec@)));
                },
                None => {},
            }
        }
        proof {
            assert(sections@.take(sections@.len() as int) =~= sections@);
            assert(files@.take(fi + 1) =~= files@.take(fi as int).push(files@[fi as int]));
            files@.take(fi as int).lemma_flat_map_push(ff, files@[fi as int]);
        }
    }
    proof {
        assert(files@.take(files@.len() as int) =~= files@);
    }
    group_sections(items)
}

/// The sort key of an input section within its output section: its
/// alignment, as a signed machine word, negated, so that larger alignments
/// come first.
pub open spec fn align_key(align: usize) -> int {
    -((align as isize) as int)
}

/// Whether the sort key of an alignment can be computed: negating the
/// signed word overflows for its least value.
pub open spec fn align_key_fits(align: usize) -> bool {
    (align as isize) != isize::MIN
}

/// How many leading sections of `s` have a sort key not above `k`.
pub open spec fn count_key_le(s: Seq<InputSectionView>, k: int) -> nat
    decreases s.len(),
{
    if s.len() == 0 {
        0
    } else if align_key(s[0].align) <= k {
        1 + count_key_le(s.drop_first(), k)
    } else {
        0
    }
}

/// `s` sorted by the sort key of the alignment, keeping the order of
/// sections with equal keys (a stable sort, as an insertion sort that puts
/// each section after the ones with a key not above its own).
pub open spec fn sorted_by_align(s: Seq<InputSectionView>) -> Seq<InputSectionView>
    decreases s.len(),
{
    if s.len() == 0 {
        Seq::empty()
    } else {
        let rest = sorted_by_align(s.drop_last());
        rest.insert(count_key_le(rest, align_key(s.last().align)) as int, s.last())
    }
}

proof fn lemma_count_key_le(s: Seq<InputSectionView>, k: int, p: int)
    requires
        0 <= p <= s.len(),
        forall|j: int| 0 <= j < p ==> align_key(#[trigger] s[j].align) <= k,
        p == s.len() || align_key(s[p].align) > k,
    ensures
        count_key_le(s, k) == p,
    decreases p,
{
    if p > 0 {
        assert forall|j: int| 0 <= j < p - 1 implies align_key(#[trigger] s.drop_first()[j].align) <= k by {
            assert(s.drop_first()[j] == s[j + 1]);
        }
        if p < s.len() {
            assert(s.drop_first()[p - 1] == s[p]);
        }
        lemma_count_key_le(s.drop_first(), k, p - 1);
    }
}

/// Sorts input sections by descending alignment, keeping the order of
/// sections with equal alignments; `Overflow` when the sort key of an
/// alignment cannot be computed.
fn sort_inputs_by_align(v: Vec<InputSection>) -> (r: Result<Vec<InputSection>, LinkError>)
    ensures
        match r {
            Ok(out) => (forall|i: int| 0 <= i < v@.len() ==> align_key_fits(#[trigger] v@[i].align))
                && sections_view(out@) == sorted_by_align(sections_view(v@)),
            Err(e) => e == LinkError::Overflow && exists|i: int|
                0 <= i < v@.len() && !align_key_fits(#[trigger] v@[i].align),
        },
{
    let ghost src = v@;
    let ghost sv = sections_view(src);
    let mut out: Vec<InputSection> = Vec::new();
    assert(sv.take(0) =~= Seq::<InputSectionView>::empty());
    assert(sections_view(out@) =~= Seq::<InputSectionView>::empty());
    for x in it: v
        invariant
            it.seq() == src,
            sv == sections_view(src),
            forall|i: int| 0 <= i < it.index() ==> align_key_fits(#[trigger] src[i].align),
            forall|j: int| 0 <= j < out@.len() ==> align_key_fits(#[trigger] out@[j].align),
            sections_view(out@) == sorted_by_align(sv.take(it.index() as int)),
    {
        let ghost n = it.index();
        let a: isize = x.align as isize;
        if a == isize::MIN {
            assert(!align_key_fits(src[n as int].align));
            return Err(LinkError::Overflow);
        }
        let kx: isize = -a;
        let mut p: usize = 0;
        while p < out.len() && -(out[p].align as isize) <= kx
            invariant
                p <= out@.len(),
                kx == align_key(x.align),
                forall|j: int| 0 <= j < out@.len() ==> align_key_fits(#[trigger] out@[j].align),
                forall|j: int| 0 <= j < p ==> align_key(#[trigger] out@[j].align) <= kx,
            decreases out.len() - p,
        {
            p = p + 1;
        }
        proof {
            let sorted = sections_view(out@);
            assert forall|j: int| 0 <= j < p implies align_key(#[trigger] sorted[j].align) <= kx by {
                assert(sorted[j].align == out@[j].align);
            }
            if p < out@.len() {
                assert(sorted[p as int].align == out@[p as int].align);
            }
            lemma_count_key_le(sorted, kx as int, p as int);
            assert(sv.take(n + 1).drop_last() =~= sv.take(n as int));
            assert(sv.take(n + 1).last() == x@);
        }
        let ghost before = out@;
        out.insert(p, x);
        proof {
            assert(sections_view(out@) =~= sections_view(before).insert(p as int, out@[p as int]@));
        }
    }
    assert(sv.take(sv.len() as int) =~= sv);
    Ok(out)
}

/// A segment: the output sections it holds, its flags, its size and its
/// virtual address.
#[derive(Debug)]
pub struct OutputSegment {
    pub sections: Vec<OutputSection>,
    pub flags: segment::Flags,
    pub size: usize,
    pub virtaddr: usize,
}

/// The value of a segment.
pub struct OutputSegmentView {
    pub sections: Seq<OutputSectionView>,
    pub flags: u32,
    pub size: usize,
    pub virtaddr: usize,
}

impl View for OutputSegment {
    type V = OutputSegmentView;

    open spec fn view(&self) -> OutputSegmentView {
        OutputSegmentView {
            sections: outputs_view(self.sections@),
            flags: self.flags.bits,
            size: self.size,
            virtaddr: self.virtaddr,
        }
    }
}

/// The values of segments.
pub open spec fn segments_view(v: Seq<OutputSegment>) -> Seq<OutputSegmentView> {
    v.map_values(|s: OutputSegment| s@)
}

impl OutputSegment {
    /// An empty segment with the given flags, at address 0.
    pub fn new(flags: segment::Flags) -> (r: Self)
        ensures
            r@ == (OutputSegmentView { sections: Seq::empty(), flags: flags.bits, size: 0, virtaddr: 0 }),
    {
        let r = Self { sections: Vec::new(), flags, size: 0, virtaddr: 0 };
        assert(outputs_view(r.sections@) =~= Seq::<OutputSectionView>::empty());
        r
    }
}

/// The address of the first segment.
pub open spec fn base_address() -> usize {
    0x201000
}

/// The page size that segment addresses are aligned to.
pub open spec fn page_size() -> usize {
    0x1000
}

/// An output section as a segment takes it: its input sections sorted by
/// descending alignment; `None` when an alignment has no sort key.
pub open spec fn prepared(sec: OutputSectionView) -> Option<OutputSectionView> {
    if forall|i: int| 0 <= i < sec.input_sections.len() ==> align_key_fits(
        #[trigger] sec.input_sections[i].align,
    ) {
        Some(OutputSectionView { input_sections: sorted_by_align(sec.input_sections), ..sec })
    } else {
        None
    }
}

/// `seg` after taking in `sec`: the section goes at the end, placed at the
/// segment's size rounded up by the section's alignment, and the segment
/// grows to its end. `None` where the size does not fit in a machine word.
pub open spec fn seg_absorb(seg: OutputSegmentView, sec: OutputSectionView) -> Option<OutputSegmentView> {
    if !can_align(seg.size, sec.align) {
        None
    } else if align_up(seg.size, sec.align) + sec.size > usize::MAX {
        None
    } else {
        Some(
            OutputSegmentView {
                sections: seg.sections.push(sec),
                size: (align_up(seg.size, sec.align) + sec.size) as usize,
                ..seg
            },
        )
    }
}

/// The segments after one more output section, keyed by the segment flags
/// the section calls for: the section goes into the segment of its flags,
/// which is added at the end the first time the flags come up.
pub open spec fn seg_step(es: Seq<(usize, OutputSegmentView)>, sec: OutputSectionView) -> Option<
    Seq<(usize, OutputSegmentView)>,
> {
    match prepared(sec) {
        None => None,
        Some(p) => {
            let k = phf_of(sec.flags) as usize;
            let i = first_index(keys_of(es), k);
            if i >= 0 {
                match seg_absorb(es[i].1, p) {
                    None => None,
                    Some(s) => Some(es.update(i, (k, s))),
                }
            } else {
                let fresh = OutputSegmentView {
                    sections: Seq::empty(),
                    flags: phf_of(sec.flags),
                    size: 0,
                    virtaddr: 0,
                };
                match seg_absorb(fresh, p) {
                    None => None,
                    Some(s) => Some(es.push((k, s))),
                }
            }
        },
    }
}

/// The segments, keyed by their flags, in the order their flags first came
/// up, after taking in `secs` in order; `None` on overflow.
pub open spec fn seg_entries(secs: Seq<OutputSectionView>) -> Option<Seq<(usize, OutputSegmentView)>>
    decreases secs.len(),
{
    if secs.len() == 0 {
        Some(Seq::empty())
    } else {
        match seg_entries(secs.drop_last()) {
            None => None,
            Some(es) => seg_step(es, secs.last()),
        }
    }
}

/// The segments made from `secs`, in ascending order of their flags, each
/// at the base address rounded up to a page.
pub open spec fn segments_of(secs: Seq<OutputSectionView>) -> Option<Seq<OutputSegmentView>> {
    match seg_entries(secs) {
        None => None,
        Some(es) => Some(
            values_by_key(es).map_values(
                |s: OutputSegmentView| OutputSegmentView { virtaddr: base_address(), ..s },
            ),
        ),
    }
}

proof fn lemma_seg_none_stays(secs: Seq<OutputSectionView>, k: int)
    requires
        0 <= k <= secs.len(),
        seg_entries(secs.take(k)) is None,
    ensures
        seg_entries(secs) is None,
    decreases secs.len() - k,
{
    if k < secs.len() {
        assert(secs.take(k + 1).drop_last() =~= secs.take(k));
        lemma_seg_none_stays(secs, k + 1);
    } else {
        assert(secs.take(k) =~= secs);
    }
}

/// The values of keyed segments.
pub open spec fn seg_entries_view(es: Seq<(usize, OutputSegment)>) -> Seq<(usize, OutputSegmentView)> {
    es.map_values(|e: (usize, OutputSegment)| (e.0, e.1@))
}

/// Groups output sections into segments by the segment flags they call
/// for. Each section's input sections are first sorted by descending
/// alignment (keeping the order of equal ones); the section then goes, in
/// order, into the segment of its flags, placed at the segment's size
/// rounded up by its alignment. The segments come in ascending order of
/// their flags, each at the base address rounded up to a page. Fails with
/// `Overflow` when a size or an alignment does not fit in a machine word.
pub fn alloc_segments(sections: Vec<OutputSection>) -> (r: Result<Vec<OutputSegment>, LinkError>)
    ensures
        match r {
            Ok(v) => segments_of(outputs_view(sections@)) == Some(segments_view(v@)),
            Err(e) => e == LinkError::Overflow && segments_of(outputs_view(sections@)) is None,
        },
{
    let ghost sv = outputs_view(sections@);
    let mut entries: Vec<(usize, OutputSegment)> = Vec::new();
    assert(seg_entries_view(entries@) =~= Seq::<(usize, OutputSegmentView)>::empty());
    assert(sv.take(0) =~= Seq::<OutputSectionView>::empty());
    for sec in it: sections
        invariant
            it.seq() == sections@,
            sv == outputs_view(sections@),
            seg_entries(sv.take(it.index() as int)) == Some(seg_entries_view(entries@)),
            keys_of(entries@).no_duplicates(),
    {
        let ghost n = it.index() as int;
        let ghost es = entries@;
        proof {
            assert(sv.take(n + 1).drop_last() =~= sv.take(n));
            assert(sv[n] == sec@);
            assert(keys_of(seg_entries_view(es)) =~= keys_of(es));
        }
        let OutputSection { name, input_sections, size, align: sec_align, flags } = sec;
        let phf = shf_to_phf(flags);
        let input_sections = match sort_inputs_by_align(input_sections) {
            Ok(v) => v,
            Err(e) => {
                proof {
                    let i = choose|i: int|
                        0 <= i < input_sections@.len() && !align_key_fits(
                            #[trigger] input_sections@[i].align,
                        );
                    assert(sv[n].input_sections[i].align == input_sections@[i].align);
                    assert(prepared(sv[n]) is None);
                    lemma_seg_none_stays(sv, n + 1);
                }
                return Err(e);
            },
        };
        let sec = OutputSection { name, input_sections, size, align: sec_align, flags };
        let ghost p = sec@;
        let k: usize = phf.bits as usize;
        let mut idx: usize = 0;
        while idx < entries.len() && entries[idx].0 != k
            invariant
                idx <= entries@.len(),
                forall|j: int| 0 <= j < idx ==> entries@[j].0 != k,
            decreases entries.len() - idx,
        {
            idx = idx + 1;
        }
        proof {
            crate::sorting::lemma_first_index(keys_of(es), k);
            if idx < entries@.len() {
                crate::sorting::lemma_first_index_unique(keys_of(es), idx as int);
            }
        }
        let found: bool = idx < entries.len();
        let (key, mut seg) = if found {
            entries.remove(idx)
        } else {
            (k, OutputSegment::new(phf))
        };
        let ghost before = seg@;
        let mask: usize = if sec.align > 1 { sec.align - 1 } else { 0 };
        if seg.size > usize::MAX - mask {
            proof {
                lemma_seg_none_stays(sv, n + 1);
            }
            return Err(LinkError::Overflow);
        }
        let start = align(seg.size, sec.align);
        if sec.size > usize::MAX - start {
            proof {
                lemma_seg_none_stays(sv, n + 1);
            }
            return Err(LinkError::Overflow);
        }
        seg.size = start + sec.size;
        seg.sections.push(sec);
        proof {
            assert(outputs_view(seg.sections@) =~= before.sections.push(p));
        }
        if found {
            entries.insert(idx, (key, seg));
            proof {
                assert(entries@ =~= es.update(idx as int, (key, seg)));
                assert(seg_entries_view(entries@) =~= seg_entries_view(es).update(idx as int, (k, seg@)));
                assert(keys_of(entries@) =~= keys_of(es));
            }
        } else {
            entries.push((key, seg));
            proof {
                assert(seg_entries_view(entries@) =~= seg_entries_view(es).push((k, seg@)));
                assert(keys_of(entries@) =~= keys_of(es).push(k));
            }
        }
    }
    proof {
        assert(sv.take(sv.len() as int) =~= sv);
    }
    let ghost es = entries@;
    let sorted = crate::sorting::sort_by_key(entries);
    let mut virtaddr: usize = 0x201000;
    let mut res: Vec<OutputSegment> = Vec::new();
    for e in it: sorted
        invariant
            it.seq() == sorted@,
            virtaddr == base_address(),
            segments_view(res@) == sorted@.take(it.index() as int).map_values(
                |e: (usize, OutputSegment)| OutputSegmentView { virtaddr: base_address(), ..e.1@ },
            ),
    {
        let ghost j = it.index();
        let (_, mut seg) = e;
        assert(0x201fffusize & !0xfffusize == 0x201000usize) by (bit_vector);
        assert(mask_of(0x1000usize) == 0xfffusize);
        assert(align_up(0x201000usize, 0x1000usize) == 0x201000usize);
        virtaddr = align(virtaddr, 0x1000);
        let ghost e1 = e.1@;
        let ghost before = res@;
        seg.virtaddr = virtaddr;
        assert(seg@ == OutputSegmentView { virtaddr: base_address(), ..e1 });
        res.push(seg);
        assert(segments_view(res@) =~= segments_view(before).push(OutputSegmentView { virtaddr: base_address(), ..e1 }));
        assert(sorted@.take(j + 1) =~= sorted@.take(j as int).push(e));
        assert(segments_view(res@) =~= sorted@.take(j + 1).map_values(
            |e: (usize, OutputSegment)| OutputSegmentView { virtaddr: base_address(), ..e.1@ },
        ));
    }
    proof {
        assert(sorted@.take(sorted@.len() as int) =~= sorted@);
        crate::sorting::lemma_sorted_permutation(sorted@, es);
        let ev = seg_entries_view(es);
        assert(keys_of(ev) =~= keys_of(es));
        assert forall|j: int| 0 <= j < res@.len() implies #[trigger] segments_view(res@)[j]
            == values_by_key(ev).map_values(
            |s: OutputSegmentView| OutputSegmentView { virtaddr: base_address(), ..s },
        )[j] by {
            assert(values_by_key(es)[j] == sorted@[j].1);
        }
        assert(segments_view(res@) =~= values_by_key(ev).map_values(
            |s: OutputSegmentView| OutputSegmentView { virtaddr: base_address(), ..s },
        ));
    }
    Ok(res)
}

/// The number of input sections that output sections hold.
pub open spec fn count_inputs(outs: Seq<OutputSectionView>) -> int {
    outs.fold_left(0int, |acc: int, o: OutputSectionView| acc + o.input_sections.len())
}

proof fn lemma_count_inputs_update(s: Seq<OutputSectionView>, i: int, x: OutputSectionView)
    requires
        0 <= i < s.len(),
    ensures
        count_inputs(s.update(i, x)) == count_inputs(s) - s[i].input_sections.len()
            + x.input_sections.len(),
    decreases s.len(),
{
    let u = s.update(i, x);
    if i == s.len() - 1 {
        assert(u.drop_last() =~= s.drop_last());
    } else {
        lemma_count_inputs_update(s.drop_last(), i, x);
        assert(u.drop_last() =~= s.drop_last().update(i, x));
    }
}

proof fn lemma_count_inputs_push(s: Seq<OutputSectionView>, x: OutputSectionView)
    ensures
        count_inputs(s.push(x)) == count_inputs(s) + x.input_sections.len(),
{
    assert(s.push(x).drop_last() =~= s);
}

/// The outputs of merged entries, without their keys.
pub open spec fn entry_outputs(es: Seq<(usize, OutputSectionView)>) -> Seq<OutputSectionView> {
    es.map_values(|e: (usize, OutputSectionView)| e.1)
}

proof fn lemma_merge_entries_inv(items: Seq<(usize, Seq<char>, InputSectionView)>)
    requires
        merge_entries(items) is Some,
    ensures
        keys_of(merge_entries(items)->0).no_duplicates(),
        count_inputs(entry_outputs(merge_entries(items)->0)) == items.len(),
    decreases items.len(),
{
    if items.len() > 0 {
        let rest = items.drop_last();
        lemma_merge_entries_inv(rest);
        let es = merge_entries(rest)->0;
        let item = items.last();
        let i = first_index(keys_of(es), item.0);
        crate::sorting::lemma_first_index(keys_of(es), item.0);
        let es2 = merge_entries(items)->0;
        if i >= 0 {
            let o = absorb(es[i].1, item.2)->0;
            assert(es2 == es.update(i, (item.0, o)));
            assert(keys_of(es2) =~= keys_of(es));
            assert(entry_outputs(es2) =~= entry_outputs(es).update(i, o));
            lemma_count_inputs_update(entry_outputs(es), i, o);
        } else {
            let o = absorb(empty_output(item.1), item.2)->0;
            assert(es2 == es.push((item.0, o)));
            assert(keys_of(es2) =~= keys_of(es).push(item.0));
            assert(entry_outputs(es2) =~= entry_outputs(es).push(o));
            lemma_count_inputs_push(entry_outputs(es), o);
        }
    } else {
        assert(entry_outputs(merge_entries(items)->0) =~= Seq::<OutputSectionView>::empty());
    }
}

/// Merging loses no section and makes no copy: the output sections made
/// from `items` hold as many input sections as there are items.
pub proof fn lemma_merge_keeps_every_section(items: Seq<(usize, Seq<char>, InputSectionView)>)
    requires
        grouped(items) is Some,
    ensures
        count_inputs(grouped(items)->0) == items.len(),
{
    lemma_merge_entries_inv(items);
    let es = merge_entries(items)->0;
    crate::sorting::lemma_values_by_key(es);
    assert(entry_outputs(es) =~= es.map_values(|e: (usize, OutputSectionView)| e.1));
    vstd::seq_lib::lemma_fold_left_permutation(
        values_by_key(es),
        entry_outputs(es),
        |acc: int, o: OutputSectionView| acc + o.input_sections.len(),
        0int,
    );
}

/// The union of the flags of sections.
pub open spec fn union_flags(s: Seq<InputSectionView>) -> u32
    decreases s.len(),
{
    if s.len() == 0 {
        0
    } else {
        union_flags(s.drop_last()) | s.last().flags
    }
}

/// The size of sections laid out one after the other, each at the end of
/// the previous ones rounded up by its alignment.
pub open spec fn packed_size(s: Seq<InputSectionView>) -> int
    decreases s.len(),
{
    if s.len() == 0 {
        0
    } else {
        align_up(packed_size(s.drop_last()) as usize, s.last().align) + s.last().size
    }
}

/// What an output section says of its input sections: its alignment is
/// the largest of theirs (0 for none), its flags are the union of theirs,
/// and its size is that of its inputs laid out one after the other.
pub open spec fn output_fits_inputs(o: OutputSectionView) -> bool {
    &&& forall|k: int|
        0 <= k < o.input_sections.len() ==> (#[trigger] o.input_sections[k]).align <= o.align
    &&& o.input_sections.len() == 0 ==> o.align == 0
    &&& o.input_sections.len() > 0 ==> exists|k: int|
        0 <= k < o.input_sections.len() && (#[trigger] o.input_sections[k]).align == o.align
    &&& o.flags == union_flags(o.input_sections)
    &&& o.size == packed_size(o.input_sections)
}

proof fn lemma_absorb_fits(out: OutputSectionView, sec: InputSectionView)
    requires
        output_fits_inputs(out),
        absorb(out, sec) is Some,
    ensures
        output_fits_inputs(absorb(out, sec)->0),
{
    let o = absorb(out, sec)->0;
    let n = out.input_sections.len();
    assert(o.input_sections.drop_last() =~= out.input_sections);
    assert(o.input_sections[n as int] == sec);
    assert forall|k: int| 0 <= k < o.input_sections.len() implies (
    #[trigger] o.input_sections[k]).align <= o.align by {
        if k < n {
            assert(o.input_sections[k] == out.input_sections[k]);
        }
    }
    if out.align >= sec.align && n > 0 {
        let k = choose|k: int| 0 <= k < n && (#[trigger] out.input_sections[k]).align == out.align;
        assert(o.input_sections[k] == out.input_sections[k]);
    } else {
        assert(o.input_sections[n as int].align == o.align);
    }
}

proof fn lemma_merge_entries_fit(items: Seq<(usize, Seq<char>, InputSectionView)>)
    requires
        merge_entries(items) is Some,
    ensures
        forall|i: int|
            0 <= i < (merge_entries(items)->0).len() ==> output_fits_inputs(
                #[trigger] (merge_entries(items)->0)[i].1,
            ),
    decreases items.len(),
{
    if items.len() > 0 {
        let rest = items.drop_last();
        lemma_merge_entries_fit(rest);
        let es = merge_entries(rest)->0;
        let x = items.last();
        let i = first_index(keys_of(es), x.0);
        crate::sorting::lemma_first_index(keys_of(es), x.0);
        let es2 = merge_entries(items)->0;
        if i >= 0 {
            assert(keys_of(es)[i] == es[i].0);
            lemma_absorb_fits(es[i].1, x.2);
            assert(es2 == es.update(i, (x.0, absorb(es[i].1, x.2)->0)));
        } else {
            let e = empty_output(x.1);
            assert(output_fits_inputs(e));
            lemma_absorb_fits(e, x.2);
            assert(es2 == es.push((x.0, absorb(e, x.2)->0)));
        }
        assert forall|j: int| 0 <= j < es2.len() implies output_fits_inputs(#[trigger] es2[j].1) by {
            if j < es.len() && j != i {
                assert(es2[j] == es[j]);
            }
        }
    }
}

/// Each output section that merging makes has the largest alignment of its
/// input sections (every input's alignment is at most the output's, and
/// the output's is one of them), the union of their flags, and the size of
/// its inputs laid out one after the other at their alignments.
pub proof fn lemma_merged_outputs_fit(items: Seq<(usize, Seq<char>, InputSectionView)>)
    requires
        grouped(items) is Some,
    ensures
        forall|j: int|
            0 <= j < (grouped(items)->0).len() ==> output_fits_inputs(#[trigger] (grouped(items)->0)[j]),
{
    lemma_merge_entries_fit(items);
    lemma_merge_entries_inv(items);
    let es = merge_entries(items)->0;
    crate::sorting::lemma_values_by_key(es);
    let ks = keys_of(es).sort_by(|a: usize, b: usize| crate::sorting::key_le(a, b));
    assert forall|j: int| 0 <= j < (grouped(items)->0).len() implies output_fits_inputs(
        #[trigger] (grouped(items)->0)[j],
    ) by {
        let fi = first_index(keys_of(es), ks[j]);
        assert(0 <= fi < es.len());
        assert((grouped(items)->0)[j] == es[fi].1);
    }
}

/// The keys of the output sections made from `items`, in the order of the
/// outputs.
pub open spec fn grouped_keys(items: Seq<(usize, Seq<char>, InputSectionView)>) -> Seq<usize> {
    match merge_entries(items) {
        None => Seq::empty(),
        Some(es) => keys_of(es).sort_by(|a: usize, b: usize| crate::sorting::key_le(a, b)),
    }
}

/// Items of one key all carry one output name.
pub open spec fn names_agree(items: Seq<(usize, Seq<char>, InputSectionView)>) -> bool {
    forall|a: int, b: int|
        #![trigger items[a], items[b]]
        0 <= a < items.len() && 0 <= b < items.len() && items[a].0 == items[b].0 ==> items[a].1
            == items[b].1
}

proof fn lemma_merge_entries_members(items: Seq<(usize, Seq<char>, InputSectionView)>)
    requires
        merge_entries(items) is Some,
        names_agree(items),
    ensures
        ({
            let es = merge_entries(items)->0;
            &&& forall|i: int|
                #![trigger es[i]]
                0 <= i < es.len() ==> exists|a: int|
                    0 <= a < items.len() && #[trigger] items[a].0 == es[i].0 && items[a].1
                        == es[i].1.name
            &&& forall|i: int, k: int|
                #![trigger es[i].1.input_sections[k]]
                0 <= i < es.len() && 0 <= k < es[i].1.input_sections.len() ==> exists|a: int|
                    0 <= a < items.len() && #[trigger] items[a] == (
                        es[i].0,
                        es[i].1.name,
                        es[i].1.input_sections[k],
                    )
        }),
    decreases items.len(),
{
    if items.len() > 0 {
        let rest = items.drop_last();
        assert forall|a: int, b: int|
            #![trigger rest[a], rest[b]]
            0 <= a < rest.len() && 0 <= b < rest.len() && rest[a].0 == rest[b].0 implies rest[a].1
            == rest[b].1 by {
            assert(rest[a] == items[a]);
            assert(rest[b] == items[b]);
        }
        lemma_merge_entries_members(rest);
        let es = merge_entries(rest)->0;
        let n = items.len() - 1;
        let x = items[n];
        assert(x == items.last());
        let i = first_index(keys_of(es), x.0);
        crate::sorting::lemma_first_index(keys_of(es), x.0);
        let es2 = merge_entries(items)->0;
        assert forall|j: int, k: int|
            #![trigger es[j].1.input_sections[k]]
            0 <= j < es.len() && 0 <= k < es[j].1.input_sections.len() implies exists|a: int|
            0 <= a < items.len() && #[trigger] items[a] == (
                es[j].0,
                es[j].1.name,
                es[j].1.input_sections[k],
            ) by {
            let a = choose|a: int|
                0 <= a < rest.len() && #[trigger] rest[a] == (
                    es[j].0,
                    es[j].1.name,
                    es[j].1.input_sections[k],
                );
            assert(items[a] == rest[a]);
        }
        assert forall|j: int| #![trigger es[j]] 0 <= j < es.len() implies exists|a: int|
            0 <= a < items.len() && #[trigger] items[a].0 == es[j].0 && items[a].1
                == es[j].1.name by {
            let a = choose|a: int|
                0 <= a < rest.len() && #[trigger] rest[a].0 == es[j].0 && rest[a].1 == es[j].1.name;
            assert(items[a] == rest[a]);
        }
        if i >= 0 {
            let o = absorb(es[i].1, x.2)->0;
            assert(es2 == es.update(i, (x.0, o)));
            let a0 = choose|a: int|
                0 <= a < items.len() && #[trigger] items[a].0 == es[i].0 && items[a].1 == es[i].1.name;
            assert(keys_of(es)[i] == es[i].0);
            assert(x.1 == es[i].1.name);
            assert forall|j: int, k: int|
                #![trigger es2[j].1.input_sections[k]]
                0 <= j < es2.len() && 0 <= k < es2[j].1.input_sections.len() implies exists|a: int|
                0 <= a < items.len() && #[trigger] items[a] == (
                    es2[j].0,
                    es2[j].1.name,
                    es2[j].1.input_sections[k],
                ) by {
                if j == i {
                    if k < es[i].1.input_sections.len() {
                        assert(es2[j].1.input_sections[k] == es[i].1.input_sections[k]);
                    } else {
                        assert(es2[j].1.input_sections[k] == x.2);
                        assert(items[n] == (es2[j].0, es2[j].1.name, es2[j].1.input_sections[k]));
                    }
                }
            }
            assert forall|j: int| #![trigger es2[j]] 0 <= j < es2.len() implies exists|a: int|
                0 <= a < items.len() && #[trigger] items[a].0 == es2[j].0 && items[a].1
                    == es2[j].1.name by {
                if j == i {
                    assert(items[a0].0 == es2[j].0);
                }
            }
        } else {
            let o = absorb(empty_output(x.1), x.2)->0;
            assert(es2 == es.push((x.0, o)));
            assert forall|j: int, k: int|
                #![trigger es2[j].1.input_sections[k]]
                0 <= j < es2.len() && 0 <= k < es2[j].1.input_sections.len() implies exists|a: int|
                0 <= a < items.len() && #[trigger] items[a] == (
                    es2[j].0,
                    es2[j].1.name,
                    es2[j].1.input_sections[k],
                ) by {
                if j == es.len() {
                    assert(es2[j].1.input_sections[k] == x.2);
                    assert(items[n] == (es2[j].0, es2[j].1.name, es2[j].1.input_sections[k]));
                } else {
                    assert(es2[j] == es[j]);
                }
            }
            assert forall|j: int| #![trigger es2[j]] 0 <= j < es2.len() implies exists|a: int|
                0 <= a < items.len() && #[trigger] items[a].0 == es2[j].0 && items[a].1
                    == es2[j].1.name by {
                if j == es.len() {
                    assert(items[n].0 == es2[j].0);
                } else {
                    assert(es2[j] == es[j]);
                }
            }
        }
    }
}

/// Merging sends each section where the configuration says. The output
/// sections come in strictly ascending order of the pattern that each
/// stands for (the order of the configuration), and every input section of
/// an output is one of the given sections, whose first matching pattern is
/// the output's pattern and whose output name is the output's name.
pub proof fn lemma_merge_follows_configuration(cfg: Config, secs: Seq<InputSection>)
    requires
        grouped(keyed_by(cfg, secs)) is Some,
    ensures
        ({
            let outs = grouped(keyed_by(cfg, secs))->0;
            let ks = grouped_keys(keyed_by(cfg, secs));
            &&& ks.len() == outs.len()
            &&& forall|i: int, j: int| 0 <= i < j < ks.len() ==> ks[i] < ks[j]
            &&& forall|j: int, k: int|
                #![trigger outs[j].input_sections[k]]
                0 <= j < outs.len() && 0 <= k < outs[j].input_sections.len() ==> exists|a: int|
                    0 <= a < secs.len() && #[trigger] secs[a]@ == outs[j].input_sections[k]
                        && cfg.match_of(secs[a].name@) == Some((ks[j], outs[j].name))
        }),
{
    let g = |s: InputSection|
        match cfg.match_of(s.name@) {
            Some((i, o)) => Some((i, o, s@)),
            None => None,
        };
    let items = keyed_by(cfg, secs);
    assert(items == secs.filter_map(g));
    assert forall|a: int| #![trigger items[a]] 0 <= a < items.len() implies exists|t: int|
        0 <= t < secs.len() && #[trigger] g(secs[t]) == Some(items[a]) by {
        assert(items.contains(items[a]));
        secs.lemma_filter_map_contains(g, items[a]);
        let s = choose|s: InputSection| #[trigger] secs.contains(s) && g(s) == Some(items[a]);
        let t = choose|t: int| 0 <= t < secs.len() && secs[t] == s;
        assert(g(secs[t]) == Some(items[a]));
    }
    assert forall|a: int| 0 <= a < items.len() implies #[trigger] items[a].1 == cfg.outputs()[items[a].0 as int] by {
        let t = choose|t: int| 0 <= t < secs.len() && #[trigger] g(secs[t]) == Some(items[a]);
    }
    assert(names_agree(items));
    lemma_merge_entries_members(items);
    lemma_merge_entries_inv(items);
    let es = merge_entries(items)->0;
    crate::sorting::lemma_values_by_key(es);
    let outs = grouped(items)->0;
    let ks = grouped_keys(items);
    assert forall|j: int, k: int|
        #![trigger outs[j].input_sections[k]]
        0 <= j < outs.len() && 0 <= k < outs[j].input_sections.len() implies exists|a: int|
        0 <= a < secs.len() && #[trigger] secs[a]@ == outs[j].input_sections[k] && cfg.match_of(
            secs[a].name@,
        ) == Some((ks[j], outs[j].name)) by {
        let fi = first_index(keys_of(es), ks[j]);
        assert(0 <= fi < es.len() && es[fi].0 == ks[j]);
        assert(outs[j] == es[fi].1);
        let a = choose|a: int|
            0 <= a < items.len() && #[trigger] items[a] == (
                es[fi].0,
                es[fi].1.name,
                es[fi].1.input_sections[k],
            );
        let t = choose|t: int| 0 <= t < secs.len() && #[trigger] g(secs[t]) == Some(items[a]);
        assert(secs[t]@ == outs[j].input_sections[k]);
    }
}

/// The size of output sections laid out one after the other, each at the
/// end of the previous ones rounded up by its alignment.
pub open spec fn packed_sections_size(s: Seq<OutputSectionView>) -> int
    decreases s.len(),
{
    if s.len() == 0 {
        0
    } else {
        align_up(packed_sections_size(s.drop_last()) as usize, s.last().align) + s.last().size
    }
}

/// The input sections of `o` come by descending alignment, where every
/// alignment fits in a signed machine word.
pub open spec fn inputs_by_alignment(o: OutputSectionView) -> bool {
    (forall|k: int| 0 <= k < o.input_sections.len() ==> (#[trigger] o.input_sections[k]).align
        <= isize::MAX) ==> forall|a: int, b: int|
        0 <= a < b < o.input_sections.len() ==> o.input_sections[a].align
            >= o.input_sections[b].align
}

/// What a segment says of its sections: its size is that of its sections
/// laid out one after the other at their alignments, and the input
/// sections of each come by descending alignment.
pub open spec fn segment_fits_sections(g: OutputSegmentView) -> bool {
    &&& g.size == packed_sections_size(g.sections)
    &&& forall|j: int| 0 <= j < g.sections.len() ==> inputs_by_alignment(#[trigger] g.sections[j])
}

proof fn lemma_seg_absorb_fits(g: OutputSegmentView, sec: OutputSectionView)
    requires
        segment_fits_sections(g),
        prepared(sec) is Some,
        seg_absorb(g, prepared(sec)->0) is Some,
    ensures
        segment_fits_sections(seg_absorb(g, prepared(sec)->0)->0),
{
    broadcast use vstd::seq_lib::group_to_multiset_ensures;

    let p = prepared(sec)->0;
    let g2 = seg_absorb(g, p)->0;
    lemma_sorted_by_align(sec.input_sections);
    assert(g2.sections.drop_last() =~= g.sections);
    assert(inputs_by_alignment(p)) by {
        if forall|k: int| 0 <= k < p.input_sections.len() ==> (#[trigger] p.input_sections[k]).align
            <= isize::MAX {
            assert forall|k: int| 0 <= k < sec.input_sections.len() implies (
            #[trigger] sec.input_sections[k]).align <= isize::MAX by {
                let x = sec.input_sections[k];
                assert(sec.input_sections.contains(x));
                assert(sec.input_sections.to_multiset().count(x) > 0);
                assert(p.input_sections.to_multiset().count(x) > 0);
                assert(p.input_sections.contains(x));
            }
        }
    }
    assert forall|j: int| 0 <= j < g2.sections.len() implies inputs_by_alignment(
        #[trigger] g2.sections[j],
    ) by {
        if j < g.sections.len() {
            assert(g2.sections[j] == g.sections[j]);
        }
    }
}

proof fn lemma_seg_entries_fit(secs: Seq<OutputSectionView>)
    requires
        seg_entries(secs) is Some,
    ensures
        forall|i: int|
            0 <= i < (seg_entries(secs)->0).len() ==> segment_fits_sections(
                #[trigger] (seg_entries(secs)->0)[i].1,
            ),
    decreases secs.len(),
{
    if secs.len() > 0 {
        let rest = secs.drop_last();
        lemma_seg_entries_fit(rest);
        let es = seg_entries(rest)->0;
        let sec = secs.last();
        let p = prepared(sec)->0;
        let k = phf_of(sec.flags) as usize;
        let i = first_index(keys_of(es), k);
        crate::sorting::lemma_first_index(keys_of(es), k);
        let es2 = seg_entries(secs)->0;
        if i >= 0 {
            assert(keys_of(es)[i] == es[i].0);
            lemma_seg_absorb_fits(es[i].1, sec);
            assert(es2 == es.update(i, (k, seg_absorb(es[i].1, p)->0)));
        } else {
            let fresh = OutputSegmentView {
                sections: Seq::empty(),
                flags: phf_of(sec.flags),
                size: 0,
                virtaddr: 0,
            };
            assert(segment_fits_sections(fresh));
            lemma_seg_absorb_fits(fresh, sec);
            assert(es2 == es.push((k, seg_absorb(fresh, p)->0)));
        }
        assert forall|j: int| 0 <= j < es2.len() implies segment_fits_sections(#[trigger] es2[j].1) by {
            if j < es.len() && j != i {
                assert(es2[j] == es[j]);
            }
        }
    }
}

/// Each segment that `alloc_segments` makes sits at address 0x201000, has
/// the size of its sections laid out one after the other at their
/// alignments, and the input
/// sections of each of its sections come by descending alignment (where
/// every alignment fits in a signed machine word).
pub proof fn lemma_segments_fit(secs: Seq<OutputSectionView>)
    requires
        segments_of(secs) is Some,
    ensures
        forall|j: int|
            0 <= j < (segments_of(secs)->0).len() ==> segment_fits_sections(
                #[trigger] (segments_of(secs)->0)[j],
            ),
        forall|j: int|
            0 <= j < (segments_of(secs)->0).len() ==> (#[trigger] (segments_of(secs)->0)[j]).virtaddr
                == 0x201000,
{
    lemma_seg_entries_fit(secs);
    lemma_seg_entries_inv(secs);
    let es = seg_entries(secs)->0;
    crate::sorting::lemma_values_by_key(es);
    let ks = keys_of(es).sort_by(|a: usize, b: usize| crate::sorting::key_le(a, b));
    let v = values_by_key(es);
    assert forall|j: int| 0 <= j < (segments_of(secs)->0).len() implies segment_fits_sections(
        #[trigger] (segments_of(secs)->0)[j],
    ) by {
        let fi = first_index(keys_of(es), ks[j]);
        assert(0 <= fi < es.len());
        assert(v[j] == es[fi].1);
        assert((segments_of(secs)->0)[j].sections == v[j].sections);
        assert((segments_of(secs)->0)[j].size == v[j].size);
    }
}

/// The number of output sections that segments hold.
pub open spec fn count_sections(segs: Seq<OutputSegmentView>) -> int {
    segs.fold_left(0int, |acc: int, g: OutputSegmentView| acc + g.sections.len())
}

/// A segment fits its sections: each calls for the segment's flags.
pub open spec fn segment_fits(g: OutputSegmentView) -> bool {
    forall|i: int| 0 <= i < g.sections.len() ==> phf_of(#[trigger] g.sections[i].flags) == g.flags
}

proof fn lemma_count_sections_update(s: Seq<OutputSegmentView>, i: int, x: OutputSegmentView)
    requires
        0 <= i < s.len(),
    ensures
        count_sections(s.update(i, x)) == count_sections(s) - s[i].sections.len() + x.sections.len(),
    decreases s.len(),
{
    let u = s.update(i, x);
    if i == s.len() - 1 {
        assert(u.drop_last() =~= s.drop_last());
    } else {
        lemma_count_sections_update(s.drop_last(), i, x);
        assert(u.drop_last() =~= s.drop_last().update(i, x));
    }
}

proof fn lemma_count_sections_push(s: Seq<OutputSegmentView>, x: OutputSegmentView)
    ensures
        count_sections(s.push(x)) == count_sections(s) + x.sections.len(),
{
    assert(s.push(x).drop_last() =~= s);
}

/// The segments of keyed entries, without their keys.
pub open spec fn entry_segments(es: Seq<(usize, OutputSegmentView)>) -> Seq<OutputSegmentView> {
    es.map_values(|e: (usize, OutputSegmentView)| e.1)
}

proof fn lemma_seg_entries_inv(secs: Seq<OutputSectionView>)
    requires
        seg_entries(secs) is Some,
    ensures
        keys_of(seg_entries(secs)->0).no_duplicates(),
        forall|i: int|
            0 <= i < (seg_entries(secs)->0).len() ==> (#[trigger] (seg_entries(secs)->0)[i]).0
                == (seg_entries(secs)->0)[i].1.flags as usize,
        forall|i: int|
            0 <= i < (seg_entries(secs)->0).len() ==> segment_fits(
                #[trigger] (seg_entries(secs)->0)[i].1,
            ),
        count_sections(entry_segments(seg_entries(secs)->0)) == secs.len(),
    decreases secs.len(),
{
    if secs.len() > 0 {
        let rest = secs.drop_last();
        lemma_seg_entries_inv(rest);
        let es = seg_entries(rest)->0;
        let sec = secs.last();
        let p = prepared(sec)->0;
        let k = phf_of(sec.flags) as usize;
        let i = first_index(keys_of(es), k);
        crate::sorting::lemma_first_index(keys_of(es), k);
        let es2 = seg_entries(secs)->0;
        if i >= 0 {
            let g = seg_absorb(es[i].1, p)->0;
            assert(es2 == es.update(i, (k, g)));
            assert(keys_of(es2) =~= keys_of(es));
            assert(entry_segments(es2) =~= entry_segments(es).update(i, g));
            lemma_count_sections_update(entry_segments(es), i, g);
            assert(es[i].0 == k);
            assert(segment_fits(es[i].1));
            assert(segment_fits(g));
        } else {
            let fresh = OutputSegmentView {
                sections: Seq::empty(),
                flags: phf_of(sec.flags),
                size: 0,
                virtaddr: 0,
            };
            let g = seg_absorb(fresh, p)->0;
            assert(es2 == es.push((k, g)));
            assert(keys_of(es2) =~= keys_of(es).push(k));
            assert(entry_segments(es2) =~= entry_segments(es).push(g));
            lemma_count_sections_push(entry_segments(es), g);
            assert(segment_fits(g));
        }
    } else {
        assert(entry_segments(seg_entries(secs)->0) =~= Seq::<OutputSegmentView>::empty());
    }
}

/// What `alloc_segments` promises of its segments: there is one segment
/// per combination of flags, in strictly ascending order of the flags;
/// every section sits in the segment of the flags it calls for; and the
/// segments hold, together, as many sections as they were given.
pub proof fn lemma_segments_law(secs: Seq<OutputSectionView>)
    requires
        segments_of(secs) is Some,
    ensures
        ({
            let segs = segments_of(secs)->0;
            &&& forall|i: int, j: int| 0 <= i < j < segs.len() ==> segs[i].flags < segs[j].flags
            &&& forall|i: int| 0 <= i < segs.len() ==> segment_fits(#[trigger] segs[i])
            &&& count_sections(segs) == secs.len()
            &&& forall|i: int, j: int|
                #![trigger segs[i].sections[j]]
                0 <= i < segs.len() && 0 <= j < segs[i].sections.len() ==> {
                    &&& (segs[i].flags & 4 == 4) == (segs[i].sections[j].flags & 2 == 2)
                    &&& (segs[i].flags & 2 == 2) == (segs[i].sections[j].flags & 1 == 1)
                    &&& (segs[i].flags & 1 == 1) == (segs[i].sections[j].flags & 4 == 4)
                    &&& segs[i].flags & !7u32 == 0
                }
        }),
{
    lemma_seg_entries_inv(secs);
    let es = seg_entries(secs)->0;
    crate::sorting::lemma_values_by_key(es);
    let segs = segments_of(secs)->0;
    let v = values_by_key(es);
    let ks = keys_of(es).sort_by(|a: usize, b: usize| crate::sorting::key_le(a, b));
    assert forall|j: int| 0 <= j < segs.len() implies #[trigger] segs[j].flags as usize == ks[j]
        && segment_fits(segs[j]) by {
        let fi = first_index(keys_of(es), ks[j]);
        assert(es[fi].0 == ks[j]);
        assert(v[j] == es[fi].1);
        assert(segs[j].sections == v[j].sections);
    }
    assert forall|i: int, j: int| 0 <= i < j < segs.len() implies segs[i].flags < segs[j].flags by {
        assert(segs[i].flags as usize == ks[i]);
        assert(segs[j].flags as usize == ks[j]);
    }
    assert(entry_segments(es) =~= es.map_values(|e: (usize, OutputSegmentView)| e.1));
    let f = |acc: int, g: OutputSegmentView| acc + g.sections.len();
    vstd::seq_lib::lemma_fold_left_permutation(v, entry_segments(es), f, 0int);
    let h = |g: OutputSegmentView| OutputSegmentView { virtaddr: base_address(), ..g };
    assert(segs == v.map_values(h));
    lemma_count_map_virtaddr(v);
    assert forall|i: int, j: int|
        #![trigger segs[i].sections[j]]
        0 <= i < segs.len() && 0 <= j < segs[i].sections.len() implies {
            &&& (segs[i].flags & 4 == 4) == (segs[i].sections[j].flags & 2 == 2)
            &&& (segs[i].flags & 2 == 2) == (segs[i].sections[j].flags & 1 == 1)
            &&& (segs[i].flags & 1 == 1) == (segs[i].sections[j].flags & 4 == 4)
            &&& segs[i].flags & !7u32 == 0
        } by {
        assert(segment_fits(segs[i]));
        assert(phf_of(segs[i].sections[j].flags) == segs[i].flags);
        lemma_segment_flag_bits(segs[i].sections[j].flags);
    }
}

proof fn lemma_count_map_virtaddr(v: Seq<OutputSegmentView>)
    ensures
        count_sections(
            v.map_values(|g: OutputSegmentView| OutputSegmentView { virtaddr: base_address(), ..g }),
        ) == count_sections(v),
    decreases v.len(),
{
    let h = |g: OutputSegmentView| OutputSegmentView { virtaddr: base_address(), ..g };
    if v.len() > 0 {
        lemma_count_map_virtaddr(v.drop_last());
        assert(v.map_values(h).drop_last() =~= v.drop_last().map_values(h));
    } else {
        assert(v.map_values(h) =~= Seq::<OutputSegmentView>::empty());
    }
}

proof fn lemma_count_key_le_bounds(s: Seq<InputSectionView>, k: int)
    ensures
        count_key_le(s, k) <= s.len(),
        forall|j: int| 0 <= j < count_key_le(s, k) ==> align_key(#[trigger] s[j].align) <= k,
        count_key_le(s, k) < s.len() ==> align_key(s[count_key_le(s, k) as int].align) > k,
    decreases s.len(),
{
    if s.len() > 0 && align_key(s[0].align) <= k {
        lemma_count_key_le_bounds(s.drop_first(), k);
        assert forall|j: int| 0 <= j < count_key_le(s, k) implies align_key(
            #[trigger] s[j].align,
        ) <= k by {
            if j > 0 {
                assert(s[j] == s.drop_first()[j - 1]);
            }
        }
        if count_key_le(s, k) < s.len() {
            assert(s[count_key_le(s, k) as int] == s.drop_first()[count_key_le(s.drop_first(), k) as int]);
        }
    }
}

/// The input sections of a segment's section come sorted by the sort key of
/// their alignment, as a permutation of the sections given; where every
/// alignment fits in a signed machine word, that is by descending
/// alignment.
pub proof fn lemma_sorted_by_align(s: Seq<InputSectionView>)
    ensures
        sorted_by_align(s).to_multiset() == s.to_multiset(),
        forall|i: int, j: int|
            0 <= i < j < sorted_by_align(s).len() ==> align_key(sorted_by_align(s)[i].align)
                <= align_key(sorted_by_align(s)[j].align),
        (forall|i: int| 0 <= i < s.len() ==> (#[trigger] s[i].align) <= isize::MAX) ==> forall|
            i: int,
            j: int,
        | 0 <= i < j < sorted_by_align(s).len() ==> sorted_by_align(s)[i].align >= sorted_by_align(
            s,
        )[j].align,
    decreases s.len(),
{
    broadcast use vstd::seq_lib::group_to_multiset_ensures;

    if s.len() > 0 {
        let rest = sorted_by_align(s.drop_last());
        lemma_sorted_by_align(s.drop_last());
        let x = s.last();
        let k = align_key(x.align);
        let p = count_key_le(rest, k);
        lemma_count_key_le_bounds(rest, k);
        let r = sorted_by_align(s);
        assert(r == rest.insert(p as int, x));
        vstd::seq_lib::to_multiset_insert(rest, p as int, x);
        assert(s =~= s.drop_last().push(x));
        vstd::seq_lib::to_multiset_build(s.drop_last(), x);
        assert forall|i: int, j: int| 0 <= i < j < r.len() implies align_key(r[i].align) <= align_key(
            r[j].align,
        ) by {
            if i < p && j > p {
                assert(r[i] == rest[i]);
                assert(r[j] == rest[j - 1]);
            }
        }
        if forall|i: int| 0 <= i < s.len() ==> (#[trigger] s[i].align) <= isize::MAX {
            assert forall|i: int| 0 <= i < r.len() implies (#[trigger] r[i].align) <= isize::MAX by {
                assert(r.to_multiset().count(r[i]) > 0);
                assert(s.contains(r[i]));
            }
            assert forall|i: int, j: int| 0 <= i < j < r.len() implies r[i].align >= r[j].align by {
                assert(align_key(r[i].align) <= align_key(r[j].align));
                assert(r[i].align <= isize::MAX);
                assert(r[j].align <= isize::MAX);
            }
        }
    } else {
        assert(s.to_multiset() =~= sorted_by_align(s).to_multiset());
    }
}

} // verus!
