//! Program headers: segment types, segment flags and the header itself.
use vstd::prelude::*;

verus! {

/// The type of a segment (`p_type`).
#[derive(Clone, Copy, Debug, PartialEq, Eq, Structural, Hash)]
pub enum Type {
    /// Program header table entry unused.
    Null,
    /// Loadable program segment.
    Load,
    /// Dynamic linking information.
    Dynamic,
    /// Program interpreter.
    Interp,
    /// Auxiliary information.
    Note,
    /// Reserved.
    Shlib,
    /// Entry for header table itself.
    Phdr,
    /// Thread-local storage segment.
    Tls,
    /// Number of defined types.
    Num,
    /// GCC .eh_frame_hdr segment.
    GnuEhFrame,
    /// Indicates stack executability.
    GnuStack,
    /// Read-only after relocation.
    GnuRelro,
    /// GNU property.
    GnuProperty,
    /// SFrame segment.
    GnuSframe,
    /// Sun specific segment.
    SunwBss,
    /// Stack segment.
    SunWstack,
}

/// The number that stands for a type in the file.
pub open spec fn type_code(t: Type) -> u32 {
    match t {
        Type::Null => 0u32,
        Type::Load => 1u32,
        Type::Dynamic => 2u32,
        Type::Interp => 3u32,
        Type::Note => 4u32,
        Type::Shlib => 5u32,
        Type::Phdr => 6u32,
        Type::Tls => 7u32,
        Type::Num => 8u32,
        Type::GnuEhFrame => 0x6474e550u32,
        Type::GnuStack => 0x6474e551u32,
        Type::GnuRelro => 0x6474e552u32,
        Type::GnuProperty => 0x6474e553u32,
        Type::GnuSframe => 0x6474e554u32,
        Type::SunwBss => 0x6ffffffau32,
        Type::SunWstack => 0x6ffffffbu32,
    }
}

/// The value that the number `code` stands for, if any.
pub open spec fn type_of_code(code: u32) -> Option<Type> {
    if exists|t: Type| type_code(t) == code {
        Some(choose|t: Type| type_code(t) == code)
    } else {
        None
    }
}

/// No two values share a number: the number of a value stands for it.
pub proof fn lemma_type_code_inverts(t: Type)
    ensures
        type_of_code(type_code(t)) == Some(t),
{
    let y = choose|y: Type| type_code(y) == type_code(t);
    assert(type_code(y) == type_code(t));
}

/// The numbers of the values are the ELF segment type numbers (`PT_NULL` 0, `PT_LOAD` 1, ...), and each number reads back as its value.
pub proof fn lemma_type_numbers()
    ensures
        type_code(Type::Null) == 0u32,
        type_of_code(0u32) == Some(Type::Null),
        type_code(Type::Load) == 1u32,
        type_of_code(1u32) == Some(Type::Load),
        type_code(Type::Dynamic) == 2u32,
        type_of_code(2u32) == Some(Type::Dynamic),
        type_code(Type::Interp) == 3u32,
        type_of_code(3u32) == Some(Type::Interp),
        type_code(Type::Note) == 4u32,
        type_of_code(4u32) == Some(Type::Note),
        type_code(Type::Shlib) == 5u32,
        type_of_code(5u32) == Some(Type::Shlib),
        type_code(Type::Phdr) == 6u32,
        type_of_code(6u32) == Some(Type::Phdr),
        type_code(Type::Tls) == 7u32,
        type_of_code(7u32) == Some(Type::Tls),
        type_code(Type::Num) == 8u32,
        type_of_code(8u32) == Some(Type::Num),
        type_code(Type::GnuEhFrame) == 0x6474e550u32,
        type_of_code(0x6474e550u32) == Some(Type::GnuEhFrame),
        type_code(Type::GnuStack) == 0x6474e551u32,
        type_of_code(0x6474e551u32) == Some(Type::GnuStack),
        type_code(Type::GnuRelro) == 0x6474e552u32,
        type_of_code(0x6474e552u32) == Some(Type::GnuRelro),
        type_code(Type::GnuProperty) == 0x6474e553u32,
        type_of_code(0x6474e553u32) == Some(Type::GnuProperty),
        type_code(Type::GnuSframe) == 0x6474e554u32,
        type_of_code(0x6474e554u32) == Some(Type::GnuSframe),
        type_code(Type::SunwBss) == 0x6ffffffau32,
        type_of_code(0x6ffffffau32) == Some(Type::SunwBss),
        type_code(Type::SunWstack) == 0x6ffffffbu32,
        type_of_code(0x6ffffffbu32) == Some(Type::SunWstack),
{
    lemma_type_code_inverts(Type::Null);
    lemma_type_code_inverts(Type::Load);
    lemma_type_code_inverts(Type::Dynamic);
    lemma_type_code_inverts(Type::Interp);
    lemma_type_code_inverts(Type::Note);
    lemma_type_code_inverts(Type::Shlib);
    lemma_type_code_inverts(Type::Phdr);
    lemma_type_code_inverts(Type::Tls);
    lemma_type_code_inverts(Type::Num);
    lemma_type_code_inverts(Type::GnuEhFrame);
    lemma_type_code_inverts(Type::GnuStack);
    lemma_type_code_inverts(Type::GnuRelro);
    lemma_type_code_inverts(Type::GnuProperty);
    lemma_type_code_inverts(Type::GnuSframe);
    lemma_type_code_inverts(Type::SunwBss);
    lemma_type_code_inverts(Type::SunWstack);
}

impl Type {
    /// The number that stands for this type in the file.
    pub fn code(&self) -> (r: u32)
        ensures
            r == type_code(*self),
    {
        match self {
            Type::Null => 0u32,
            Type::Load => 1u32,
            Type::Dynamic => 2u32,
            Type::Interp => 3u32,
            Type::Note => 4u32,
            Type::Shlib => 5u32,
            Type::Phdr => 6u32,
            Type::Tls => 7u32,
            Type::Num => 8u32,
            Type::GnuEhFrame => 0x6474e550u32,
            Type::GnuStack => 0x6474e551u32,
            Type::GnuRelro => 0x6474e552u32,
            Type::GnuProperty => 0x6474e553u32,
            Type::GnuSframe => 0x6474e554u32,
            Type::SunwBss => 0x6ffffffau32,
            Type::SunWstack => 0x6ffffffbu32,
        }
    }

    /// The type that `code` stands for, if any: the one whose `code` it is.
    pub fn from_code(code: u32) -> (r: Option<Type>)
        ensures
            match r {
                Some(t) => type_code(t) == code,
                None => forall|t: Type| type_code(t) != code,
            },
            forall|t: Type| type_code(t) == code ==> r == Some(t),
            r == type_of_code(code),
    {
        let r = {
            if code == 0u32 {
                Some(Type::Null)
            } else if code == 1u32 {
                Some(Type::Load)
            } else if code == 2u32 {
                Some(Type::Dynamic)
            } else if code == 3u32 {
                Some(Type::Interp)
            } else if code == 4u32 {
                Some(Type::Note)
            } else if code == 5u32 {
                Some(Type::Shlib)
            } else if code == 6u32 {
                Some(Type::Phdr)
            } else if code == 7u32 {
                Some(Type::Tls)
            } else if code == 8u32 {
                Some(Type::Num)
            } else if code == 0x6474e550u32 {
                Some(Type::GnuEhFrame)
            } else if code == 0x6474e551u32 {
                Some(Type::GnuStack)
            } else if code == 0x6474e552u32 {
                Some(Type::GnuRelro)
            } else if code == 0x6474e553u32 {
                Some(Type::GnuProperty)
            } else if code == 0x6474e554u32 {
                Some(Type::GnuSframe)
            } else if code == 0x6ffffffau32 {
                Some(Type::SunwBss)
            } else if code == 0x6ffffffbu32 {
                Some(Type::SunWstack)
            } else {
                None
            }
        };
        proof {
            if let Some(x) = r {
                assert(type_code(x) == code);
            }
        }
        r
    }
}

/// `PF_R`: readable.
pub const READ: u32 = 4u32;
/// `PF_W`: writable.
pub const WRITE: u32 = 2u32;
/// `PF_X`: executable.
pub const EXEC: u32 = 1u32;

/// A set of segment flags, held as the raw bit pattern of `p_flags`.
#[derive(Clone, Copy, Debug, PartialEq, Eq, Structural, Hash)]
pub struct Flags {
    pub bits: u32,
}

impl Flags {
    /// The empty set.
    pub fn empty() -> (r: Flags)
        ensures
            r.bits == 0,
    {
        Flags { bits: 0 }
    }

    /// The set whose bit pattern is `bits`, unknown bits included.
    pub fn from_bits_retain(bits: u32) -> (r: Flags)
        ensures
            r.bits == bits,
    {
        Flags { bits }
    }

    /// The raw bit pattern.
    pub fn bits(&self) -> (r: u32)
        ensures
            r == self.bits,
    {
        self.bits
    }

    /// Whether every bit of `other` is set in `self`.
    pub fn contains(&self, other: Flags) -> (r: bool)
        ensures
            r == (self.bits & other.bits == other.bits),
    {
        self.bits & other.bits == other.bits
    }

    /// The union of the two sets.
    pub fn union(self, other: Flags) -> (r: Flags)
        ensures
            r.bits == self.bits | other.bits,
    {
        Flags { bits: self.bits | other.bits }
    }

    /// Adds every bit of `other` to `self` (the `|=` of the sets).
    pub fn insert(&mut self, other: Flags)
        ensures
            final(self).bits == old(self).bits | other.bits,
    {
        self.bits = self.bits | other.bits;
    }
}

/// A program header (`Elf32_Phdr` / `Elf64_Phdr`).
#[derive(Debug)]
pub struct Header {
    pub segment_type: Type,
    pub flags: Flags,
    pub offset: u64,
    pub virtual_addr: u64,
    pub physical_addr: u64,
    pub file_size: u64,
    pub mem_size: u64,
    pub align: u64,
}

} // verus!
