//! Symbols of the symbol table.
use vstd::prelude::*;

verus! {

/// The binding of a symbol.
#[derive(Clone, Copy, Debug, PartialEq, Eq, Structural, Hash)]
pub enum SymBind {
    /// `STB_LOCAL`: local symbol.
    Local,
    /// `STB_GLOBAL`: global symbol.
    Global,
    /// `STB_WEAK`: weak symbol.
    Weak,
}

/// The number that stands for a `SymBind` in the file.
pub open spec fn bind_code(x: SymBind) -> u8 {
    match x {
        SymBind::Local => 0u8,
        SymBind::Global => 1u8,
        SymBind::Weak => 2u8,
    }
}

/// The value that the number `code` stands for, if any.
pub open spec fn bind_of_code(code: u8) -> Option<SymBind> {
    if exists|x: SymBind| bind_code(x) == code {
        Some(choose|x: SymBind| bind_code(x) == code)
    } else {
        None
    }
}

/// No two values share a number: the number of a value stands for it.
pub proof fn lemma_bind_code_inverts(x: SymBind)
    ensures
        bind_of_code(bind_code(x)) == Some(x),
{
    let y = choose|y: SymBind| bind_code(y) == bind_code(x);
    assert(bind_code(y) == bind_code(x));
}

/// The numbers of the values are the ELF symbol binding numbers (`STB_LOCAL` 0, `STB_GLOBAL` 1, `STB_WEAK` 2), and each number reads back as its value.
pub proof fn lemma_bind_numbers()
    ensures
        bind_code(SymBind::Local) == 0u8,
        bind_of_code(0u8) == Some(SymBind::Local),
        bind_code(SymBind::Global) == 1u8,
        bind_of_code(1u8) == Some(SymBind::Global),
        bind_code(SymBind::Weak) == 2u8,
        bind_of_code(2u8) == Some(SymBind::Weak),
{
    lemma_bind_code_inverts(SymBind::Local);
    lemma_bind_code_inverts(SymBind::Global);
    lemma_bind_code_inverts(SymBind::Weak);
}

impl SymBind {
    /// The number that stands for this value in the file.
    pub fn code(&self) -> (r: u8)
        ensures
            r == bind_code(*self),
    {
        match self {
            SymBind::Local => 0u8,
            SymBind::Global => 1u8,
            SymBind::Weak => 2u8,
        }
    }

    /// The value that `code` stands for, if any: the one whose `code` it is.
    pub fn from_code(code: u8) -> (r: Option<SymBind>)
        ensures
            match r {
                Some(x) => bind_code(x) == code,
                None => forall|x: SymBind| bind_code(x) != code,
            },
            forall|x: SymBind| bind_code(x) == code ==> r == Some(x),
            r == bind_of_code(code),
    {
        let r = {
            if code == 0u8 {
                Some(SymBind::Local)
            } else if code == 1u8 {
                Some(SymBind::Global)
            } else if code == 2u8 {
                Some(SymBind::Weak)
            } else {
                None
            }
        };
        proof {
            if let Some(x) = r {
                assert(bind_code(x) == code);
            }
        }
        r
    }
}

/// The type of a symbol.
#[derive(Clone, Copy, Debug, PartialEq, Eq, Structural, Hash)]
pub enum SymType {
    /// `STT_NOTYPE`: type not specified.
    NoType,
    /// `STT_OBJECT`: data object.
    Object,
    /// `STT_FUNC`: code object.
    Func,
    /// `STT_SECTION`: associated with a section.
    Section,
    /// `STT_FILE`: file name.
    File,
    /// `STT_COMMON`: common data object.
    Common,
    /// `STT_TLS`: thread-local data object.
    Tls,
}

/// The number that stands for a `SymType` in the file.
pub open spec fn sym_type_code(x: SymType) -> u8 {
    match x {
        SymType::NoType => 0u8,
        SymType::Object => 1u8,
        SymType::Func => 2u8,
        SymType::Section => 3u8,
        SymType::File => 4u8,
        SymType::Common => 5u8,
        SymType::Tls => 6u8,
    }
}

/// The value that the number `code` stands for, if any.
pub open spec fn sym_type_of_code(code: u8) -> Option<SymType> {
    if exists|x: SymType| sym_type_code(x) == code {
        Some(choose|x: SymType| sym_type_code(x) == code)
    } else {
        None
    }
}

/// No two values share a number: the number of a value stands for it.
pub proof fn lemma_sym_type_code_inverts(x: SymType)
    ensures
        sym_type_of_code(sym_type_code(x)) == Some(x),
{
    let y = choose|y: SymType| sym_type_code(y) == sym_type_code(x);
    assert(sym_type_code(y) == sym_type_code(x));
}

/// The numbers of the values are the ELF symbol type numbers (`STT_NOTYPE` 0 to `STT_TLS` 6), and each number reads back as its value.
pub proof fn lemma_sym_type_numbers()
    ensures
        sym_type_code(SymType::NoType) == 0u8,
        sym_type_of_code(0u8) == Some(SymType::NoType),
        sym_type_code(SymType::Object) == 1u8,
        sym_type_of_code(1u8) == Some(SymType::Object),
        sym_type_code(SymType::Func) == 2u8,
        sym_type_of_code(2u8) == Some(SymType::Func),
        sym_type_code(SymType::Section) == 3u8,
        sym_type_of_code(3u8) == Some(SymType::Section),
        sym_type_code(SymType::File) == 4u8,
        sym_type_of_code(4u8) == Some(SymType::File),
        sym_type_code(SymType::Common) == 5u8,
        sym_type_of_code(5u8) == Some(SymType::Common),
        sym_type_code(SymType::Tls) == 6u8,
        sym_type_of_code(6u8) == Some(SymType::Tls),
{
    lemma_sym_type_code_inverts(SymType::NoType);
    lemma_sym_type_code_inverts(SymType::Object);
    lemma_sym_type_code_inverts(SymType::Func);
    lemma_sym_type_code_inverts(SymType::Section);
    lemma_sym_type_code_inverts(SymType::File);
    lemma_sym_type_code_inverts(SymType::Common);
    lemma_sym_type_code_inverts(SymType::Tls);
}

impl SymType {
    /// The number that stands for this value in the file.
    pub fn code(&self) -> (r: u8)
        ensures
            r == sym_type_code(*self),
    {
        match self {
            SymType::NoType => 0u8,
            SymType::Object => 1u8,
            SymType::Func => 2u8,
            SymType::Section => 3u8,
            SymType::File => 4u8,
            SymType::Common => 5u8,
            SymType::Tls => 6u8,
        }
    }

    /// The value that `code` stands for, if any: the one whose `code` it is.
    pub fn from_code(code: u8) -> (r: Option<SymType>)
        ensures
            match r {
                Some(x) => sym_type_code(x) == code,
                None => forall|x: SymType| sym_type_code(x) != code,
            },
            forall|x: SymType| sym_type_code(x) == code ==> r == Some(x),
            r == sym_type_of_code(code),
    {
        let r = {
            if code == 0u8 {
                Some(SymType::NoType)
            } else if code == 1u8 {
                Some(SymType::Object)
            } else if code == 2u8 {
                Some(SymType::Func)
            } else if code == 3u8 {
                Some(SymType::Section)
            } else if code == 4u8 {
                Some(SymType::File)
            } else if code == 5u8 {
                Some(SymType::Common)
            } else if code == 6u8 {
                Some(SymType::Tls)
            } else {
                None
            }
        };
        proof {
            if let Some(x) = r {
                assert(sym_type_code(x) == code);
            }
        }
        r
    }
}

/// A symbol table entry (`Elf32_Sym` / `Elf64_Sym`).
#[derive(Clone, Copy, Debug)]
pub struct Sym {
    pub name: u32,
    pub bind: SymBind,
    pub typ: SymType,
    pub other: u8,
    pub shndx: u16,
    pub value: usize,
    pub size: usize,
}

} // verus!
