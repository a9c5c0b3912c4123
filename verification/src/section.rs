//! Section headers: their flags, their types and the header itself.
use vstd::prelude::*;

verus! {

/// `SHF_WRITE`: writable.
pub const WRITE: u32 = 1u32;
/// `SHF_ALLOC`: occupies memory during execution.
pub const ALLOC: u32 = 2u32;
/// `SHF_EXECINSTR`: executable.
pub const EXEC_INSTR: u32 = 4u32;
/// `SHF_MERGE`: might be merged.
pub const MERGE: u32 = 16u32;
/// `SHF_STRINGS`: contains nul-terminated strings.
pub const STRINGS: u32 = 32u32;
/// `SHF_INFO_LINK`: `sh_info` contains a section header table index.
pub const INFO_LINK: u32 = 64u32;
/// `SHF_LINK_ORDER`: preserve order after combining.
pub const LINK_ORDER: u32 = 128u32;
/// `SHF_OS_NONCONFORMING`: non-standard OS specific handling.
pub const OS_NONCONFORMING: u32 = 256u32;

/// A set of section flags, held as the raw bit pattern of `sh_flags`.
/// Bits that have no name above are kept as they are.
#[derive(Clone, Copy, Debug, PartialEq, Eq, Structural, Hash)]
pub struct Flags {
    pub bits: u32,
}

impl Flags {
    /// The empty set.
    pub fn empty() -> (r: Flags)
        ensures
            r.bits == 0,
    {
        Flags { bits: 0 }
    }

    /// The set whose bit pattern is `bits`, unknown bits included.
    pub fn from_bits_retain(bits: u32) -> (r: Flags)
        ensures
            r.bits == bits,
    {
        Flags { bits }
    }

    /// The raw bit pattern.
    pub fn bits(&self) -> (r: u32)
        ensures
            r == self.bits,
    {
        self.bits
    }

    /// Whether every bit of `other` is set in `self`.
    pub fn contains(&self, other: Flags) -> (r: bool)
        ensures
            r == (self.bits & other.bits == other.bits),
    {
        self.bits & other.bits == other.bits
    }

    /// The union of the two sets.
    pub fn union(self, other: Flags) -> (r: Flags)
        ensures
            r.bits == self.bits | other.bits,
    {
        Flags { bits: self.bits | other.bits }
    }

    /// Adds every bit of `other` to `self` (the `|=` of the sets).
    pub fn insert(&mut self, other: Flags)
        ensures
            final(self).bits == old(self).bits | other.bits,
    {
        self.bits = self.bits | other.bits;
    }
}

/// The type of a section (`sh_type`).
#[derive(Clone, Copy, Debug, PartialEq, Eq, Structural, Hash)]
pub enum Type {
    /// Section header table entry unused.
    Null,
    /// Program data.
    Progbits,
    /// Symbol table.
    Symtab,
    /// String table.
    Strtab,
    /// Relocation entries with addends.
    Rela,
    /// Symbol hash table.
    Hash,
    /// Dynamic linking information.
    Dynamic,
    /// Notes.
    Note,
    /// Program space with no data (bss).
    Nobits,
    /// Relocation entries, no addends.
    Rel,
    /// Reserved.
    Shlib,
    /// Dynamic linker symbol table.
    Dynsym,
    /// Array of constructors.
    InitArray,
    /// Array of destructors.
    FiniArray,
    /// Array of pre-constructors.
    PreinitArray,
    /// Section group.
    Group,
    /// Extended section indices.
    SymtabShndx,
    /// RELR relative relocations.
    Relr,
    /// Number of defined types.
    Num,
    /// LLVM address signatures.
    LlvmAddrSig,
    /// Object attributes.
    GnuAttributes,
    /// GNU-style hash table.
    GnuHash,
    /// Prelink library list.
    GnuLiblist,
    /// Checksum for DSO content.
    Checksum,
    /// Sun move table.
    SunwMove,
    /// Sun COMDAT.
    SunwComdat,
    /// Sun symbol information.
    SunwSyminfo,
    /// Version definition section.
    GnuVerdef,
    /// Version needs section.
    GnuVerneed,
    /// Version symbol table.
    GnuVersym,
    /// x86-64 unwind information.
    X8664Unwind,
}

/// The number that stands for a type in the file.
pub open spec fn type_code(t: Type) -> u32 {
    match t {
        Type::Null => 0u32,
        Type::Progbits => 1u32,
        Type::Symtab => 2u32,
        Type::Strtab => 3u32,
        Type::Rela => 4u32,
        Type::Hash => 5u32,
        Type::Dynamic => 6u32,
        Type::Note => 7u32,
        Type::Nobits => 8u32,
        Type::Rel => 9u32,
        Type::Shlib => 10u32,
        Type::Dynsym => 11u32,
        Type::InitArray => 14u32,
        Type::FiniArray => 15u32,
        Type::PreinitArray => 16u32,
        Type::Group => 17u32,
        Type::SymtabShndx => 18u32,
        Type::Relr => 19u32,
        Type::Num => 20u32,
        Type::LlvmAddrSig => 0x6fff4c03u32,
        Type::GnuAttributes => 0x6ffffff5u32,
        Type::GnuHash => 0x6ffffff6u32,
        Type::GnuLiblist => 0x6ffffff7u32,
        Type::Checksum => 0x6ffffff8u32,
        Type::SunwMove => 0x6ffffffau32,
        Type::SunwComdat => 0x6ffffffbu32,
        Type::SunwSyminfo => 0x6ffffffcu32,
        Type::GnuVerdef => 0x6ffffffdu32,
        Type::GnuVerneed => 0x6ffffffeu32,
        Type::GnuVersym => 0x6fffffffu32,
        Type::X8664Unwind => 0x70000001u32,
    }
}

/// The value that the number `code` stands for, if any.
pub open spec fn type_of_code(code: u32) -> Option<Type> {
    if exists|t: Type| type_code(t) == code {
        Some(choose|t: Type| type_code(t) == code)
    } else {
        None
    }
}

/// No two values share a number: the number of a value stands for it.
pub proof fn lemma_type_code_inverts(t: Type)
    ensures
        type_of_code(type_code(t)) == Some(t),
{
    let y = choose|y: Type| type_code(y) == type_code(t);
    assert(type_code(y) == type_code(t));
}

/// The numbers of the values are the ELF section type numbers (`SHT_NULL` 0, `SHT_PROGBITS` 1, `SHT_SYMTAB` 2, `SHT_STRTAB` 3, ..., `SHT_NOTE` 7, `SHT_NOBITS` 8, ...), and each number reads back as its value.
pub proof fn lemma_type_numbers()
    ensures
        type_code(Type::Null) == 0u32,
        type_of_code(0u32) == Some(Type::Null),
        type_code(Type::Progbits) == 1u32,
        type_of_code(1u32) == Some(Type::Progbits),
        type_code(Type::Symtab) == 2u32,
        type_of_code(2u32) == Some(Type::Symtab),
        type_code(Type::Strtab) == 3u32,
        type_of_code(3u32) == Some(Type::Strtab),
        type_code(Type::Rela) == 4u32,
        type_of_code(4u32) == Some(Type::Rela),
        type_code(Type::Hash) == 5u32,
        type_of_code(5u32) == Some(Type::Hash),
        type_code(Type::Dynamic) == 6u32,
        type_of_code(6u32) == Some(Type::Dynamic),
        type_code(Type::Note) == 7u32,
        type_of_code(7u32) == Some(Type::Note),
        type_code(Type::Nobits) == 8u32,
        type_of_code(8u32) == Some(Type::Nobits),
        type_code(Type::Rel) == 9u32,
        type_of_code(9u32) == Some(Type::Rel),
        type_code(Type::Shlib) == 10u32,
        type_of_code(10u32) == Some(Type::Shlib),
        type_code(Type::Dynsym) == 11u32,
        type_of_code(11u32) == Some(Type::Dynsym),
        type_code(Type::InitArray) == 14u32,
        type_of_code(14u32) == Some(Type::InitArray),
        type_code(Type::FiniArray) == 15u32,
        type_of_code(15u32) == Some(Type::FiniArray),
        type_code(Type::PreinitArray) == 16u32,
        type_of_code(16u32) == Some(Type::PreinitArray),
        type_code(Type::Group) == 17u32,
        type_of_code(17u32) == Some(Type::Group),
        type_code(Type::SymtabShndx) == 18u32,
        type_of_code(18u32) == Some(Type::SymtabShndx),
        type_code(Type::Relr) == 19u32,
        type_of_code(19u32) == Some(Type::Relr),
        type_code(Type::Num) == 20u32,
        type_of_code(20u32) == Some(Type::Num),
        type_code(Type::LlvmAddrSig) == 0x6fff4c03u32,
        type_of_code(0x6fff4c03u32) == Some(Type::LlvmAddrSig),
        type_code(Type::GnuAttributes) == 0x6ffffff5u32,
        type_of_code(0x6ffffff5u32) == Some(Type::GnuAttributes),
        type_code(Type::GnuHash) == 0x6ffffff6u32,
        type_of_code(0x6ffffff6u32) == Some(Type::GnuHash),
        type_code(Type::GnuLiblist) == 0x6ffffff7u32,
        type_of_code(0x6ffffff7u32) == Some(Type::GnuLiblist),
        type_code(Type::Checksum) == 0x6ffffff8u32,
        type_of_code(0x6ffffff8u32) == Some(Type::Checksum),
        type_code(Type::SunwMove) == 0x6ffffffau32,
        type_of_code(0x6ffffffau32) == Some(Type::SunwMove),
        type_code(Type::SunwComdat) == 0x6ffffffbu32,
        type_of_code(0x6ffffffbu32) == Some(Type::SunwComdat),
        type_code(Type::SunwSyminfo) == 0x6ffffffcu32,
        type_of_code(0x6ffffffcu32) == Some(Type::SunwSyminfo),
        type_code(Type::GnuVerdef) == 0x6ffffffdu32,
        type_of_code(0x6ffffffdu32) == Some(Type::GnuVerdef),
        type_code(Type::GnuVerneed) == 0x6ffffffeu32,
        type_of_code(0x6ffffffeu32) == Some(Type::GnuVerneed),
        type_code(Type::GnuVersym) == 0x6fffffffu32,
        type_of_code(0x6fffffffu32) == Some(Type::GnuVersym),
        type_code(Type::X8664Unwind) == 0x70000001u32,
        type_of_code(0x70000001u32) == Some(Type::X8664Unwind),
{
    lemma_type_code_inverts(Type::Null);
    lemma_type_code_inverts(Type::Progbits);
    lemma_type_code_inverts(Type::Symtab);
    lemma_type_code_inverts(Type::Strtab);
    lemma_type_code_inverts(Type::Rela);
    lemma_type_code_inverts(Type::Hash);
    lemma_type_code_inverts(Type::Dynamic);
    lemma_type_code_inverts(Type::Note);
    lemma_type_code_inverts(Type::Nobits);
    lemma_type_code_inverts(Type::Rel);
    lemma_type_code_inverts(Type::Shlib);
    lemma_type_code_inverts(Type::Dynsym);
    lemma_type_code_inverts(Type::InitArray);
    lemma_type_code_inverts(Type::FiniArray);
    lemma_type_code_inverts(Type::PreinitArray);
    lemma_type_code_inverts(Type::Group);
    lemma_type_code_inverts(Type::SymtabShndx);
    lemma_type_code_inverts(Type::Relr);
    lemma_type_code_inverts(Type::Num);
    lemma_type_code_inverts(Type::LlvmAddrSig);
    lemma_type_code_inverts(Type::GnuAttributes);
    lemma_type_code_inverts(Type::GnuHash);
    lemma_type_code_inverts(Type::GnuLiblist);
    lemma_type_code_inverts(Type::Checksum);
    lemma_type_code_inverts(Type::SunwMove);
    lemma_type_code_inverts(Type::SunwComdat);
    lemma_type_code_inverts(Type::SunwSyminfo);
    lemma_type_code_inverts(Type::GnuVerdef);
    lemma_type_code_inverts(Type::GnuVerneed);
    lemma_type_code_inverts(Type::GnuVersym);
    lemma_type_code_inverts(Type::X8664Unwind);
}

impl Type {
    /// The number that stands for this type in the file.
    pub fn code(&self) -> (r: u32)
        ensures
            r == type_code(*self),
    {
        match self {
            Type::Null => 0u32,
            Type::Progbits => 1u32,
            Type::Symtab => 2u32,
            Type::Strtab => 3u32,
            Type::Rela => 4u32,
            Type::Hash => 5u32,
            Type::Dynamic => 6u32,
            Type::Note => 7u32,
            Type::Nobits => 8u32,
            Type::Rel => 9u32,
            Type::Shlib => 10u32,
            Type::Dynsym => 11u32,
            Type::InitArray => 14u32,
            Type::FiniArray => 15u32,
            Type::PreinitArray => 16u32,
            Type::Group => 17u32,
            Type::SymtabShndx => 18u32,
            Type::Relr => 19u32,
            Type::Num => 20u32,
            Type::LlvmAddrSig => 0x6fff4c03u32,
            Type::GnuAttributes => 0x6ffffff5u32,
            Type::GnuHash => 0x6ffffff6u32,
            Type::GnuLiblist => 0x6ffffff7u32,
            Type::Checksum => 0x6ffffff8u32,
            Type::SunwMove => 0x6ffffffau32,
            Type::SunwComdat => 0x6ffffffbu32,
            Type::SunwSyminfo => 0x6ffffffcu32,
            Type::GnuVerdef => 0x6ffffffdu32,
            Type::GnuVerneed => 0x6ffffffeu32,
            Type::GnuVersym => 0x6fffffffu32,
            Type::X8664Unwind => 0x70000001u32,
        }
    }

    /// The type that `code` stands for, if any: the one whose `code` it is.
    pub fn from_code(code: u32) -> (r: Option<Type>)
        ensures
            match r {
                Some(t) => type_code(t) == code,
                None => forall|t: Type| type_code(t) != code,
            },
            forall|t: Type| type_code(t) == code ==> r == Some(t),
            r == type_of_code(code),
    {
        let r = {
            if code == 0u32 {
                Some(Type::Null)
            } else if code == 1u32 {
                Some(Type::Progbits)
            } else if code == 2u32 {
                Some(Type::Symtab)
            } else if code == 3u32 {
                Some(Type::Strtab)
            } else if code == 4u32 {
                Some(Type::Rela)
            } else if code == 5u32 {
                Some(Type::Hash)
            } else if code == 6u32 {
                Some(Type::Dynamic)
            } else if code == 7u32 {
                Some(Type::Note)
            } else if code == 8u32 {
                Some(Type::Nobits)
            } else if code == 9u32 {
                Some(Type::Rel)
            } else if code == 10u32 {
                Some(Type::Shlib)
            } else if code == 11u32 {
                Some(Type::Dynsym)
            } else if code == 14u32 {
                Some(Type::InitArray)
            } else if code == 15u32 {
                Some(Type::FiniArray)
            } else if code == 16u32 {
                Some(Type::PreinitArray)
            } else if code == 17u32 {
                Some(Type::Group)
            } else if code == 18u32 {
                Some(Type::SymtabShndx)
            } else if code == 19u32 {
                Some(Type::Relr)
            } else if code == 20u32 {
                Some(Type::Num)
            } else if code == 0x6fff4c03u32 {
                Some(Type::LlvmAddrSig)
            } else if code == 0x6ffffff5u32 {
                Some(Type::GnuAttributes)
            } else if code == 0x6ffffff6u32 {
                Some(Type::GnuHash)
            } else if code == 0x6ffffff7u32 {
                Some(Type::GnuLiblist)
            } else if code == 0x6ffffff8u32 {
                Some(Type::Checksum)
            } else if code == 0x6ffffffau32 {
                Some(Type::SunwMove)
            } else if code == 0x6ffffffbu32 {
                Some(Type::SunwComdat)
            } else if code == 0x6ffffffcu32 {
                Some(Type::SunwSyminfo)
            } else if code == 0x6ffffffdu32 {
                Some(Type::GnuVerdef)
            } else if code == 0x6ffffffeu32 {
                Some(Type::GnuVerneed)
            } else if code == 0x6fffffffu32 {
                Some(Type::GnuVersym)
            } else if code == 0x70000001u32 {
                Some(Type::X8664Unwind)
            } else {
                None
            }
        };
        proof {
            if let Some(x) = r {
                assert(type_code(x) == code);
            }
        }
        r
    }
}

/// A section header (`Elf32_Shdr` / `Elf64_Shdr`), with the fields that
/// depend on the class widened to the larger of the two.
#[derive(Debug, PartialEq, Eq, Structural)]
pub struct Header {
    /// Offset of the name in the section header string table.
    pub name: usize,
    pub typ: Type,
    pub flags: Flags,
    pub addr: u64,
    pub offset: usize,
    pub size: usize,
    pub link: u32,
    pub info: u32,
    pub align: u64,
    pub entry_size: u64,
}

} // verus!
