//! The ELF file header and the values that it names.
use vstd::prelude::*;
use crate::section;
use crate::segment;
use crate::symbol::Sym;

verus! {

/// The class of a file (`EI_CLASS`).
#[derive(Clone, Copy, Debug, PartialEq, Eq, Structural, Hash)]
pub enum Class {
    /// `ELFCLASS32`: 32-bit objects.
    Class32,
    /// `ELFCLASS64`: 64-bit objects.
    Class64,
}

/// The number that stands for a `Class` in the file.
pub open spec fn class_code(x: Class) -> u8 {
    match x {
        Class::Class32 => 1u8,
        Class::Class64 => 2u8,
    }
}

/// The value that the number `code` stands for, if any.
pub open spec fn class_of_code(code: u8) -> Option<Class> {
    if exists|x: Class| class_code(x) == code {
        Some(choose|x: Class| class_code(x) == code)
    } else {
        None
    }
}

/// No two values share a number: the number of a value stands for it.
pub proof fn lemma_class_code_inverts(x: Class)
    ensures
        class_of_code(class_code(x)) == Some(x),
{
    let y = choose|y: Class| class_code(y) == class_code(x);
    assert(class_code(y) == class_code(x));
}

/// The numbers of the values are the ELF class numbers (`ELFCLASS32` 1, `ELFCLASS64` 2), and each number reads back as its value.
pub proof fn lemma_class_numbers()
    ensures
        class_code(Class::Class32) == 1u8,
        class_of_code(1u8) == Some(Class::Class32),
        class_code(Class::Class64) == 2u8,
        class_of_code(2u8) == Some(Class::Class64),
{
    lemma_class_code_inverts(Class::Class32);
    lemma_class_code_inverts(Class::Class64);
}

impl Class {
    /// The number that stands for this value in the file.
    pub fn code(&self) -> (r: u8)
        ensures
            r == class_code(*self),
    {
        match self {
            Class::Class32 => 1u8,
            Class::Class64 => 2u8,
        }
    }

    /// The value that `code` stands for, if any: the one whose `code` it is.
    pub fn from_code(code: u8) -> (r: Option<Class>)
        ensures
            match r {
                Some(x) => class_code(x) == code,
                None => forall|x: Class| class_code(x) != code,
            },
            forall|x: Class| class_code(x) == code ==> r == Some(x),
            r == class_of_code(code),
    {
        let r = {
            if code == 1u8 {
                Some(Class::Class32)
            } else if code == 2u8 {
                Some(Class::Class64)
            } else {
                None
            }
        };
        proof {
            if let Some(x) = r {
                assert(class_code(x) == code);
            }
        }
        r
    }
}

/// The byte order of a file (`EI_DATA`).
#[derive(Clone, Copy, Debug, PartialEq, Eq, Structural, Hash)]
pub enum Endianness {
    /// `ELFDATA2LSB`: least significant byte first.
    Little,
    /// `ELFDATA2MSB`: most significant byte first.
    Big,
}

/// The number that stands for a `Endianness` in the file.
pub open spec fn endianness_code(x: Endianness) -> u8 {
    match x {
        Endianness::Little => 1u8,
        Endianness::Big => 2u8,
    }
}

/// The value that the number `code` stands for, if any.
pub open spec fn endianness_of_code(code: u8) -> Option<Endianness> {
    if exists|x: Endianness| endianness_code(x) == code {
        Some(choose|x: Endianness| endianness_code(x) == code)
    } else {
        None
    }
}

/// No two values share a number: the number of a value stands for it.
pub proof fn lemma_endianness_code_inverts(x: Endianness)
    ensures
        endianness_of_code(endianness_code(x)) == Some(x),
{
    let y = choose|y: Endianness| endianness_code(y) == endianness_code(x);
    assert(endianness_code(y) == endianness_code(x));
}

/// The numbers of the values are the ELF byte order numbers (`ELFDATA2LSB` 1, `ELFDATA2MSB` 2), and each number reads back as its value.
pub proof fn lemma_endianness_numbers()
    ensures
        endianness_code(Endianness::Little) == 1u8,
        endianness_of_code(1u8) == Some(Endianness::Little),
        endianness_code(Endianness::Big) == 2u8,
        endianness_of_code(2u8) == Some(Endianness::Big),
{
    lemma_endianness_code_inverts(Endianness::Little);
    lemma_endianness_code_inverts(Endianness::Big);
}

impl Endianness {
    /// The number that stands for this value in the file.
    pub fn code(&self) -> (r: u8)
        ensures
            r == endianness_code(*self),
    {
        match self {
            Endianness::Little => 1u8,
            Endianness::Big => 2u8,
        }
    }

    /// The value that `code` stands for, if any: the one whose `code` it is.
    pub fn from_code(code: u8) -> (r: Option<Endianness>)
        ensures
            match r {
                Some(x) => endianness_code(x) == code,
                None => forall|x: Endianness| endianness_code(x) != code,
            },
            forall|x: Endianness| endianness_code(x) == code ==> r == Some(x),
            r == endianness_of_code(code),
    {
        let r = {
            if code == 1u8 {
                Some(Endianness::Little)
            } else if code == 2u8 {
                Some(Endianness::Big)
            } else {
                None
            }
        };
        proof {
            if let Some(x) = r {
                assert(endianness_code(x) == code);
            }
        }
        r
    }
}

/// The type of a file (`e_type`).
#[derive(Clone, Copy, Debug, PartialEq, Eq, Structural, Hash)]
pub enum Type {
    /// `ET_REL`: relocatable file.
    Relocatable,
    /// `ET_EXEC`: executable file.
    Executable,
    /// `ET_DYN`: shared object file.
    Shared,
    /// `ET_CORE`: core file.
    Core,
}

/// The number that stands for a `Type` in the file.
pub open spec fn type_code(x: Type) -> u16 {
    match x {
        Type::Relocatable => 1u16,
        Type::Executable => 2u16,
        Type::Shared => 3u16,
        Type::Core => 4u16,
    }
}

/// The value that the number `code` stands for, if any.
pub open spec fn type_of_code(code: u16) -> Option<Type> {
    if exists|x: Type| type_code(x) == code {
        Some(choose|x: Type| type_code(x) == code)
    } else {
        None
    }
}

/// No two values share a number: the number of a value stands for it.
pub proof fn lemma_type_code_inverts(x: Type)
    ensures
        type_of_code(type_code(x)) == Some(x),
{
    let y = choose|y: Type| type_code(y) == type_code(x);
    assert(type_code(y) == type_code(x));
}

/// The numbers of the values are the ELF file type numbers (`ET_REL` 1, `ET_EXEC` 2, `ET_DYN` 3, `ET_CORE` 4), and each number reads back as its value.
pub proof fn lemma_type_numbers()
    ensures
        type_code(Type::Relocatable) == 1u16,
        type_of_code(1u16) == Some(Type::Relocatable),
        type_code(Type::Executable) == 2u16,
        type_of_code(2u16) == Some(Type::Executable),
        type_code(Type::Shared) == 3u16,
        type_of_code(3u16) == Some(Type::Shared),
        type_code(Type::Core) == 4u16,
        type_of_code(4u16) == Some(Type::Core),
{
    lemma_type_code_inverts(Type::Relocatable);
    lemma_type_code_inverts(Type::Executable);
    lemma_type_code_inverts(Type::Shared);
    lemma_type_code_inverts(Type::Core);
}

impl Type {
    /// The number that stands for this value in the file.
    pub fn code(&self) -> (r: u16)
        ensures
            r == type_code(*self),
    {
        match self {
            Type::Relocatable => 1u16,
            Type::Executable => 2u16,
            Type::Shared => 3u16,
            Type::Core => 4u16,
        }
    }

    /// The value that `code` stands for, if any: the one whose `code` it is.
    pub fn from_code(code: u16) -> (r: Option<Type>)
        ensures
            match r {
                Some(x) => type_code(x) == code,
                None => forall|x: Type| type_code(x) != code,
            },
            forall|x: Type| type_code(x) == code ==> r == Some(x),
            r == type_of_code(code),
    {
        let r = {
            if code == 1u16 {
                Some(Type::Relocatable)
            } else if code == 2u16 {
                Some(Type::Executable)
            } else if code == 3u16 {
                Some(Type::Shared)
            } else if code == 4u16 {
                Some(Type::Core)
            } else {
                None
            }
        };
        proof {
            if let Some(x) = r {
                assert(type_code(x) == code);
            }
        }
        r
    }
}

/// The ELF file header, with the fields that depend on the class widened to
/// the larger of the two.
#[derive(Debug)]
pub struct Header {
    pub class: Class,
    pub endianness: Endianness,
    pub os_abi: u8,
    pub abi_version: u8,
    pub typ: Type,
    pub machine: u16,
    pub entry: usize,
    pub phoff: usize,
    pub shoff: usize,
    pub flags: u32,
    pub header_size: u16,
    pub phentsize: u16,
    pub phnum: u16,
    pub shentsize: u16,
    pub shnum: u16,
    pub shstrndx: u16,
}

/// A parsed object file: its header, section headers, program headers and
/// symbols, together with the bytes it was read from.
#[derive(Debug)]
pub struct ElfFile<'a> {
    pub header: Header,
    pub sections: Vec<section::Header>,
    pub segments: Vec<segment::Header>,
    pub syms: Vec<Sym>,
    /// The index of the strtab to be used for looking up symbol names.
    pub symtab_strtab: usize,
    pub data: &'a [u8],
}

} // verus!
