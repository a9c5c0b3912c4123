use kelp::elf::{self, Class, Endianness};
use kelp::section;
use kelp::segment;
use kelp::symbol::{SymBind, SymType};

#[test]
fn section_type_codes() {
    assert_eq!(section::Type::Progbits.code(), 1);
    assert_eq!(section::Type::InitArray.code(), 14);
    assert_eq!(section::Type::GnuHash.code(), 0x6ffffff6);
    assert_eq!(section::Type::from_code(3), Some(section::Type::Strtab));
    assert_eq!(section::Type::from_code(0x70000001), Some(section::Type::X8664Unwind));
    assert_eq!(section::Type::from_code(12), None);
}

#[test]
fn segment_type_codes() {
    assert_eq!(segment::Type::Load.code(), 1);
    assert_eq!(segment::Type::GnuStack.code(), 0x6474e551);
    assert_eq!(segment::Type::from_code(7), Some(segment::Type::Tls));
    assert_eq!(segment::Type::from_code(9), None);
}

#[test]
fn ident_and_symbol_codes() {
    assert_eq!(Class::Class32.code(), 1);
    assert_eq!(Class::from_code(2), Some(Class::Class64));
    assert_eq!(Class::from_code(0), None);
    assert_eq!(Endianness::Big.code(), 2);
    assert_eq!(Endianness::from_code(1), Some(Endianness::Little));
    assert_eq!(elf::Type::Core.code(), 4);
    assert_eq!(elf::Type::from_code(5), None);
    assert_eq!(SymBind::Weak.code(), 2);
    assert_eq!(SymType::from_code(6), Some(SymType::Tls));
    assert_eq!(SymType::from_code(7), None);
}

#[test]
fn flags_operations() {
    let mut f = section::Flags::empty();
    assert_eq!(f.bits(), 0);
    f.insert(section::Flags::from_bits_retain(section::ALLOC));
    f.insert(section::Flags::from_bits_retain(section::WRITE));
    assert!(f.contains(section::Flags::from_bits_retain(section::ALLOC | section::WRITE)));
    assert!(!f.contains(section::Flags::from_bits_retain(section::EXEC_INSTR)));
    assert!(f.contains(section::Flags::empty()));
    let g = f.union(section::Flags::from_bits_retain(0x1000));
    assert_eq!(g.bits(), 0x1003);
    let p = segment::Flags::from_bits_retain(segment::READ).union(segment::Flags::from_bits_retain(segment::EXEC));
    assert_eq!(p.bits(), 5);
    assert!(p.contains(segment::Flags::from_bits_retain(segment::EXEC)));
}

#[test]
fn from_code_undoes_code() {
    for t in [section::Type::Null, section::Type::Relr, section::Type::Num, section::Type::LlvmAddrSig, section::Type::GnuVersym] {
        assert_eq!(section::Type::from_code(t.code()), Some(t));
    }
    for t in [segment::Type::Null, segment::Type::Num, segment::Type::GnuSframe, segment::Type::SunWstack] {
        assert_eq!(segment::Type::from_code(t.code()), Some(t));
    }
    for c in [Class::Class32, Class::Class64] {
        assert_eq!(Class::from_code(c.code()), Some(c));
    }
    for e in [Endianness::Little, Endianness::Big] {
        assert_eq!(Endianness::from_code(e.code()), Some(e));
    }
    for t in [elf::Type::Relocatable, elf::Type::Executable, elf::Type::Shared, elf::Type::Core] {
        assert_eq!(elf::Type::from_code(t.code()), Some(t));
    }
    for b in [SymBind::Local, SymBind::Global, SymBind::Weak] {
        assert_eq!(SymBind::from_code(b.code()), Some(b));
    }
    for t in [SymType::NoType, SymType::Section, SymType::Common] {
        assert_eq!(SymType::from_code(t.code()), Some(t));
    }
}
