use kelp::elf::{self, Class, Endianness};
use kelp::link::{process_input_file, try_process_input_file, LinkError};
use kelp::reader::{parse, read_header, read_sym, read_uint};
use kelp::section;
use kelp::symbol::{Sym, SymBind, SymType};
use kelp::writer::Writer;

// shstrtab: "\0.text\0.data\0.shstrtab\0.symtab\0.strtab\0"
//            0 1     7     13        23       31
const SHSTRTAB: &[u8] = b"\0.text\0.data\0.shstrtab\0.symtab\0.strtab\0";
const STRTAB: &[u8] = b"\0main\0buf\0";

fn shdr(name: usize, typ: section::Type, flags: u32, offset: usize, size: usize, link: u32, align: u64, entry_size: u64) -> section::Header {
    section::Header {
        name,
        typ,
        flags: section::Flags::from_bits_retain(flags),
        addr: 0,
        offset,
        size,
        link,
        info: 0,
        align,
        entry_size,
    }
}

fn header(class: Class, endianness: Endianness, shoff: usize, shnum: u16) -> elf::Header {
    let (ehsize, shentsize) = match class {
        Class::Class32 => (52, 40),
        Class::Class64 => (64, 64),
    };
    elf::Header {
        class,
        endianness,
        os_abi: 0,
        abi_version: 0,
        typ: elf::Type::Relocatable,
        machine: 62,
        entry: 0,
        phoff: 0,
        shoff,
        flags: 0,
        header_size: ehsize,
        phentsize: 0,
        phnum: 0,
        shentsize,
        shnum,
        shstrndx: 3,
    }
}

fn syms() -> Vec<Sym> {
    vec![
        Sym { name: 0, bind: SymBind::Local, typ: SymType::NoType, other: 0, shndx: 0, value: 0, size: 0 },
        Sym { name: 1, bind: SymBind::Global, typ: SymType::Func, other: 0, shndx: 1, value: 0, size: 4 },
        Sym { name: 6, bind: SymBind::Local, typ: SymType::Object, other: 0, shndx: 2, value: 0, size: 8 },
    ]
}

/// A relocatable object laid out by the writer: the file header, the
/// contents of `.text` and `.data`, the string tables, the symbol table
/// and then the section headers.
fn object(class: Class, endianness: Endianness) -> (Vec<u8>, Vec<section::Header>) {
    let mut w = Writer::new(class, endianness);
    w.seek_start(w.elf_header_size() as u64);
    let text_off = w.tell() as usize;
    w.write_bytes(&[0x90, 0x90, 0x90, 0xc3]);
    let data_off = w.tell() as usize;
    w.write_bytes(&[1, 2, 3, 4, 5, 6, 7, 8]);
    let shstr_off = w.tell() as usize;
    w.write_bytes(SHSTRTAB);
    let str_off = w.tell() as usize;
    w.write_bytes(STRTAB);
    w.align(8);
    let sym_off = w.tell() as usize;
    for s in syms() {
        w.write_sym(&s);
    }
    let symsize = w.symsize();
    w.align(8);
    let shoff = w.tell() as usize;
    let sections = vec![
        shdr(0, section::Type::Null, 0, 0, 0, 0, 0, 0),
        shdr(1, section::Type::Progbits, section::ALLOC | section::EXEC_INSTR, text_off, 4, 0, 16, 0),
        shdr(7, section::Type::Progbits, section::ALLOC | section::WRITE, data_off, 8, 0, 8, 0),
        shdr(13, section::Type::Strtab, 0, shstr_off, SHSTRTAB.len(), 0, 1, 0),
        shdr(23, section::Type::Symtab, 0, sym_off, 3 * symsize, 5, 8, symsize as u64),
        shdr(31, section::Type::Strtab, 0, str_off, STRTAB.len(), 0, 1, 0),
    ];
    for s in &sections {
        w.write_shdr(s);
    }
    w.rewind();
    w.write_ehdr(header(class, endianness, shoff, sections.len() as u16));
    (w.into_inner(), sections)
}

#[test]
fn read_uint_in_both_byte_orders() {
    let d = [0x01u8, 0x02, 0x03, 0x04, 0x05, 0x06, 0x07, 0x08, 0x09];
    assert_eq!(read_uint(&d, 0, 2, Endianness::Little), Some(0x0201));
    assert_eq!(read_uint(&d, 0, 2, Endianness::Big), Some(0x0102));
    assert_eq!(read_uint(&d, 1, 4, Endianness::Little), Some(0x05040302));
    assert_eq!(read_uint(&d, 1, 8, Endianness::Big), Some(0x0203040506070809));
    assert_eq!(read_uint(&d, 1, 0, Endianness::Big), Some(0));
    assert_eq!(read_uint(&d, 2, 8, Endianness::Little), None);
    assert_eq!(read_uint(&d, 10, 0, Endianness::Little), None);
}

#[test]
fn written_objects_are_read_back() {
    for class in [Class::Class32, Class::Class64] {
        for endianness in [Endianness::Little, Endianness::Big] {
            let (bytes, sections) = object(class, endianness);
            let f = parse(&bytes).unwrap();
            assert_eq!(f.header.class, class);
            assert_eq!(f.header.endianness, endianness);
            assert_eq!(f.header.typ, elf::Type::Relocatable);
            assert_eq!(f.header.machine, 62);
            assert_eq!(f.header.shnum, 6);
            assert_eq!(f.header.shstrndx, 3);
            assert_eq!(f.sections, sections);
            assert!(f.segments.is_empty());
            assert_eq!(f.symtab_strtab, 5);
            assert_eq!(f.syms.len(), 3);
            for (a, b) in f.syms.iter().zip(syms().iter()) {
                assert_eq!((a.name, a.bind, a.typ, a.other, a.shndx, a.value, a.size), (b.name, b.bind, b.typ, b.other, b.shndx, b.value, b.size));
            }
            assert_eq!(f.data.len(), bytes.len());
        }
    }
}

#[test]
fn process_input_file_reads_an_object() {
    let (bytes, _) = object(Class::Class64, Endianness::Little);
    let f = process_input_file("a.o".to_string(), &bytes);
    assert_eq!(f.name, "a.o");
    assert_eq!(f.ident.class, Class::Class64);
    assert_eq!(f.ident.endianness, Endianness::Little);
    assert_eq!(f.ident.machine, 62);
    assert_eq!(f.sections.len(), 2);
    assert_eq!(f.sections[0].name, b".text".to_vec());
    assert_eq!(f.sections[0].size, 4);
    assert_eq!(f.sections[0].align, 16);
    assert_eq!(f.sections[1].name, b".data".to_vec());
    assert_eq!(f.sections[1].flags.bits(), section::ALLOC | section::WRITE);
    let g = try_process_input_file("a.o".to_string(), &bytes).unwrap();
    assert_eq!(g.sections, f.sections);
}

#[test]
fn unreadable_files_are_malformed() {
    assert_eq!(try_process_input_file("x".to_string(), b"not an object").err(), Some(LinkError::Malformed));
    assert_eq!(try_process_input_file("x".to_string(), b"").err(), Some(LinkError::Malformed));
    let (mut bytes, _) = object(Class::Class64, Endianness::Little);
    // An unknown class.
    bytes[4] = 3;
    assert!(parse(&bytes).is_none());
    assert!(read_header(&bytes).is_none());
    // The section header table cut short.
    let (bytes, _) = object(Class::Class32, Endianness::Big);
    assert!(parse(&bytes[..bytes.len() - 1]).is_none());
    assert!(read_header(&bytes[..52]).is_some());
    assert!(read_header(&bytes[..51]).is_none());
}

#[test]
fn unknown_codes_are_refused() {
    let (mut bytes, _) = object(Class::Class64, Endianness::Little);
    let shoff = parse(&bytes).unwrap().header.shoff;
    // Section 1 gets type 12, which names no section type.
    bytes[shoff + 64 + 4] = 12;
    assert!(parse(&bytes).is_none());
    // A symbol binding of 3 names nothing.
    let mut d = vec![0u8; 24];
    d[4] = 0x31;
    assert!(read_sym(&d, 0, Class::Class64, Endianness::Little).is_none());
    d[4] = 0x21;
    let s = read_sym(&d, 0, Class::Class64, Endianness::Little).unwrap();
    assert_eq!((s.bind, s.typ), (SymBind::Weak, SymType::Object));
}

#[test]
fn files_without_symbols() {
    let mut w = Writer::new(Class::Class64, Endianness::Little);
    w.write_ehdr(header(Class::Class64, Endianness::Little, 0, 0));
    let bytes = w.into_inner();
    let f = parse(&bytes).unwrap();
    assert!(f.sections.is_empty());
    assert!(f.syms.is_empty());
    assert_eq!(f.symtab_strtab, 0);
    // Its section name table index (3) is past its sections.
    assert_eq!(try_process_input_file("e.o".to_string(), &bytes).err(), Some(LinkError::StringTableIndexOutOfRange));
}
