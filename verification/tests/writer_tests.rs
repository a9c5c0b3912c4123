use kelp::elf::{self, Class, Endianness};
use kelp::section;
use kelp::segment;
use kelp::symbol::{Sym, SymBind, SymType};
use kelp::writer::Writer;
use std::io::{Cursor, Seek, SeekFrom, Write};

fn ehdr(class: Class, endianness: Endianness) -> elf::Header {
    elf::Header {
        class,
        endianness,
        os_abi: 3,
        abi_version: 1,
        typ: elf::Type::Executable,
        machine: 0x3e,
        entry: 0x401000,
        phoff: 0x40,
        shoff: 0x1234,
        flags: 0x0102_0304,
        header_size: 64,
        phentsize: 56,
        phnum: 2,
        shentsize: 64,
        shnum: 7,
        shstrndx: 6,
    }
}

fn shdr() -> section::Header {
    section::Header {
        name: 0x11,
        typ: section::Type::Progbits,
        flags: section::Flags::from_bits_retain(section::ALLOC | section::EXEC_INSTR),
        addr: 0x401000,
        offset: 0x1000,
        size: 0x1_0000_0020,
        link: 2,
        info: 3,
        align: 16,
        entry_size: 0,
    }
}

fn phdr() -> segment::Header {
    segment::Header {
        segment_type: segment::Type::Load,
        flags: segment::Flags::from_bits_retain(segment::READ | segment::EXEC),
        offset: 0x1000,
        virtual_addr: 0x401000,
        physical_addr: 0x401000,
        file_size: 0x20,
        mem_size: 0x30,
        align: 0x1000,
    }
}

#[test]
fn new_writer_is_empty() {
    let w = Writer::new(Class::Class64, Endianness::Little);
    assert_eq!(w.tell(), 0);
    assert_eq!(w.into_inner(), Vec::<u8>::new());
}

#[test]
fn ehdr_64_little_endian_bytes() {
    let mut w = Writer::new(Class::Class64, Endianness::Little);
    w.write_ehdr(ehdr(Class::Class64, Endianness::Little));
    assert_eq!(w.tell(), 64);
    let b = w.into_inner();
    let mut expected = vec![0x7f, b'E', b'L', b'F', 2, 1, 1, 3, 1, 0, 0, 0, 0, 0, 0, 0];
    expected.extend_from_slice(&[2, 0, 0x3e, 0, 1, 0, 0, 0]);
    expected.extend_from_slice(&[0x00, 0x10, 0x40, 0, 0, 0, 0, 0]);
    expected.extend_from_slice(&[0x40, 0, 0, 0, 0, 0, 0, 0]);
    expected.extend_from_slice(&[0x34, 0x12, 0, 0, 0, 0, 0, 0]);
    expected.extend_from_slice(&[0x04, 0x03, 0x02, 0x01]);
    expected.extend_from_slice(&[64, 0, 56, 0, 2, 0, 64, 0, 7, 0, 6, 0]);
    assert_eq!(b, expected);
}

#[test]
fn ehdr_32_big_endian_bytes() {
    let mut w = Writer::new(Class::Class32, Endianness::Big);
    w.write_ehdr(ehdr(Class::Class32, Endianness::Big));
    assert_eq!(w.tell(), 52);
    let b = w.into_inner();
    let mut expected = vec![0x7f, b'E', b'L', b'F', 1, 2, 1, 3, 1, 0, 0, 0, 0, 0, 0, 0];
    expected.extend_from_slice(&[0, 2, 0, 0x3e, 0, 0, 0, 1]);
    expected.extend_from_slice(&[0, 0x40, 0x10, 0x00]);
    expected.extend_from_slice(&[0, 0, 0, 0x40]);
    expected.extend_from_slice(&[0, 0, 0x12, 0x34]);
    expected.extend_from_slice(&[0x01, 0x02, 0x03, 0x04]);
    expected.extend_from_slice(&[0, 64, 0, 56, 0, 2, 0, 64, 0, 7, 0, 6]);
    assert_eq!(b, expected);
}

#[test]
fn ehdr_size_matches_elf_header_size() {
    for class in [Class::Class32, Class::Class64] {
        for e in [Endianness::Little, Endianness::Big] {
            let mut w = Writer::new(class, e);
            let size = w.elf_header_size();
            w.write_ehdr(ehdr(class, e));
            assert_eq!(w.tell() as usize, size);
            assert_eq!(w.into_inner().len(), size);
        }
    }
}

#[test]
fn shdr_64_little_endian_bytes() {
    let mut w = Writer::new(Class::Class64, Endianness::Little);
    w.write_shdr(&shdr());
    let b = w.into_inner();
    let mut expected = vec![0x11, 0, 0, 0, 1, 0, 0, 0];
    expected.extend_from_slice(&[6, 0, 0, 0, 0, 0, 0, 0]);
    expected.extend_from_slice(&[0x00, 0x10, 0x40, 0, 0, 0, 0, 0]);
    expected.extend_from_slice(&[0x00, 0x10, 0, 0, 0, 0, 0, 0]);
    expected.extend_from_slice(&[0x20, 0, 0, 0, 1, 0, 0, 0]);
    expected.extend_from_slice(&[2, 0, 0, 0, 3, 0, 0, 0]);
    expected.extend_from_slice(&[16, 0, 0, 0, 0, 0, 0, 0]);
    expected.extend_from_slice(&[0, 0, 0, 0, 0, 0, 0, 0]);
    assert_eq!(b, expected);
}

#[test]
fn shdr_32_truncates_wide_fields() {
    let mut w = Writer::new(Class::Class32, Endianness::Big);
    w.write_shdr(&shdr());
    let b = w.into_inner();
    let expected = vec![
        0, 0, 0, 0x11, 0, 0, 0, 1, 0, 0, 0, 6, 0, 0x40, 0x10, 0x00, 0, 0, 0x10, 0x00, 0, 0, 0,
        0x20, 0, 0, 0, 2, 0, 0, 0, 3, 0, 0, 0, 16, 0, 0, 0, 0,
    ];
    assert_eq!(b, expected);
}

#[test]
fn null_section_is_all_zero() {
    for (class, size) in [(Class::Class32, 40usize), (Class::Class64, 64usize)] {
        let mut w = Writer::new(class, Endianness::Big);
        assert_eq!(w.shentsize(), size);
        w.write_null_section();
        assert_eq!(w.into_inner(), vec![0u8; size]);
    }
}

#[test]
fn phdr_field_order_depends_on_class() {
    let mut w = Writer::new(Class::Class64, Endianness::Little);
    w.write_phdr(&phdr());
    let b = w.into_inner();
    assert_eq!(b.len(), 56);
    assert_eq!(&b[0..8], &[1, 0, 0, 0, 5, 0, 0, 0]);
    assert_eq!(&b[8..16], &[0x00, 0x10, 0, 0, 0, 0, 0, 0]);
    assert_eq!(&b[32..40], &[0x20, 0, 0, 0, 0, 0, 0, 0]);
    assert_eq!(&b[48..56], &[0x00, 0x10, 0, 0, 0, 0, 0, 0]);

    let mut w = Writer::new(Class::Class32, Endianness::Little);
    w.write_phdr(&phdr());
    let b = w.into_inner();
    let expected = vec![
        1, 0, 0, 0, 0x00, 0x10, 0, 0, 0x00, 0x10, 0x40, 0, 0x00, 0x10, 0x40, 0, 0x20, 0, 0, 0, 0x30,
        0, 0, 0, 5, 0, 0, 0, 0x00, 0x10, 0, 0,
    ];
    assert_eq!(b, expected);
}

#[test]
fn sym_bytes_pack_binding_and_type() {
    let sym = Sym {
        name: 7,
        bind: SymBind::Global,
        typ: SymType::Func,
        other: 2,
        shndx: 0x0102,
        value: 0x1000,
        size: 0x10,
    };
    let mut w = Writer::new(Class::Class64, Endianness::Little);
    assert_eq!(w.symsize(), 24);
    w.write_sym(&sym);
    let b = w.into_inner();
    let expected = vec![
        7, 0, 0, 0, 0x12, 2, 0x02, 0x01, 0x00, 0x10, 0, 0, 0, 0, 0, 0, 0x10, 0, 0, 0, 0, 0, 0, 0,
    ];
    assert_eq!(b, expected);

    let mut w = Writer::new(Class::Class32, Endianness::Big);
    assert_eq!(w.symsize(), 16);
    w.write_sym(&Sym { bind: SymBind::Weak, typ: SymType::Tls, ..sym });
    let b = w.into_inner();
    let expected = vec![0, 0, 0, 7, 0, 0, 0x10, 0x00, 0, 0, 0, 0x10, 0x26, 2, 0x01, 0x02];
    assert_eq!(b, expected);
}

#[test]
fn entry_sizes_per_class() {
    let w32 = Writer::new(Class::Class32, Endianness::Little);
    let w64 = Writer::new(Class::Class64, Endianness::Little);
    assert_eq!((w32.elf_header_size(), w32.shentsize(), w32.phentsize(), w32.symsize()), (52, 40, 32, 16));
    assert_eq!((w64.elf_header_size(), w64.shentsize(), w64.phentsize(), w64.symsize()), (64, 64, 56, 24));
}

#[test]
fn phdr_size_matches_phentsize() {
    for class in [Class::Class32, Class::Class64] {
        let mut w = Writer::new(class, Endianness::Big);
        let n = w.phentsize();
        w.write_phdr(&phdr());
        assert_eq!(w.tell() as usize, n);
    }
}

#[test]
fn align_pads_to_power_of_two() {
    let mut w = Writer::new(Class::Class64, Endianness::Little);
    w.write_bytes(&[1, 2, 3]);
    assert_eq!(w.align(8), 5);
    assert_eq!(w.tell(), 8);
    assert_eq!(w.align(8), 0);
    assert_eq!(w.align(0), 0);
    assert_eq!(w.align(1), 0);
    w.write_bytes(&[9]);
    assert_eq!(w.align(16), 7);
    assert_eq!(w.tell() % 16, 0);
    assert_eq!(w.into_inner(), vec![1, 2, 3, 0, 0, 0, 0, 0, 9, 0, 0, 0, 0, 0, 0, 0]);
}

#[test]
fn align_with_other_alignments_uses_the_mask() {
    // (1 + 2) & !2 == 1: nothing to pad for an alignment of 3 at 1.
    let mut w = Writer::new(Class::Class64, Endianness::Little);
    w.write_bytes(&[7]);
    assert_eq!(w.align(3), 0);
    // (4 + 5) & !5 == 8
    w.write_bytes(&[7, 7, 7]);
    assert_eq!(w.align(6), 4);
    assert_eq!(w.tell(), 8);
}

#[test]
fn align_does_not_extend_when_nothing_to_pad() {
    let mut w = Writer::new(Class::Class64, Endianness::Little);
    w.seek_start(16);
    assert_eq!(w.align(8), 0);
    assert_eq!(w.into_inner(), Vec::<u8>::new());
}

#[test]
fn seek_moves_both_ways() {
    let mut w = Writer::new(Class::Class32, Endianness::Little);
    w.write_bytes(&[1, 2, 3, 4, 5]);
    w.seek(-3);
    assert_eq!(w.tell(), 2);
    w.write_bytes(&[9]);
    w.seek(2);
    assert_eq!(w.tell(), 5);
    w.rewind();
    assert_eq!(w.tell(), 0);
    w.write_bytes(&[8]);
    assert_eq!(w.into_inner(), vec![8, 2, 9, 4, 5]);
}

#[test]
fn write_past_the_end_fills_with_zeros() {
    let mut w = Writer::new(Class::Class32, Endianness::Little);
    w.write_bytes(&[1]);
    w.seek_start(4);
    w.write_bytes(&[2, 3]);
    assert_eq!(w.tell(), 6);
    assert_eq!(w.into_inner(), vec![1, 0, 0, 0, 2, 3]);
}

#[test]
fn write_reads_back_where_it_was_made() {
    let mut w = Writer::new(Class::Class64, Endianness::Big);
    w.write_bytes(&[0xaa; 10]);
    w.seek_start(3);
    w.write_bytes(&[1, 2, 3]);
    let b = w.into_inner();
    assert_eq!(&b[3..6], &[1, 2, 3]);
    assert_eq!(&b[0..3], &[0xaa; 3]);
    assert_eq!(&b[6..10], &[0xaa; 4]);
}

#[test]
fn writer_matches_std_cursor() {
    let steps: Vec<(Option<u64>, Vec<u8>)> = vec![
        (None, vec![1, 2, 3]),
        (Some(7), vec![4, 5]),
        (Some(2), vec![6, 7, 8, 9, 10, 11, 12]),
        (Some(20), vec![]),
        (Some(0), vec![13]),
        (Some(30), vec![14]),
    ];
    let mut w = Writer::new(Class::Class64, Endianness::Little);
    let mut c: Cursor<Vec<u8>> = Cursor::default();
    for (seek, bytes) in &steps {
        if let Some(p) = seek {
            w.seek_start(*p);
            c.seek(SeekFrom::Start(*p)).unwrap();
        }
        w.write_bytes(bytes);
        c.write_all(bytes).unwrap();
        assert_eq!(w.tell(), c.position());
    }
    assert_eq!(w.into_inner(), c.into_inner());
}

#[test]
fn written_integers_decode_back() {
    let mut w = Writer::new(Class::Class64, Endianness::Little);
    let mut s = shdr();
    s.link = 0xdead_beef;
    w.write_shdr(&s);
    let b = w.into_inner();
    assert_eq!(u32::from_le_bytes(b[40..44].try_into().unwrap()), 0xdead_beef);
    assert_eq!(u64::from_le_bytes(b[24..32].try_into().unwrap()), 0x1000);

    let mut w = Writer::new(Class::Class64, Endianness::Big);
    w.write_shdr(&s);
    let b = w.into_inner();
    assert_eq!(u32::from_be_bytes(b[40..44].try_into().unwrap()), 0xdead_beef);
    assert_eq!(u64::from_be_bytes(b[32..40].try_into().unwrap()), 0x1_0000_0020);
}

#[test]
fn empty_write_past_the_end_matches_std_cursor() {
    let mut w = Writer::new(Class::Class64, Endianness::Little);
    let mut c: Cursor<Vec<u8>> = Cursor::default();
    w.write_bytes(&[1]);
    c.write_all(&[1]).unwrap();
    w.seek_start(5);
    c.seek(SeekFrom::Start(5)).unwrap();
    w.write_bytes(&[]);
    c.write_all(&[]).unwrap();
    assert_eq!(w.tell(), c.position());
    assert_eq!(w.into_inner(), c.into_inner());
}

#[test]
fn null_section_is_shentsize_zero_bytes() {
    for class in [Class::Class32, Class::Class64] {
        for endian in [Endianness::Little, Endianness::Big] {
            let mut w1 = Writer::new(class, endian);
            let mut w2 = Writer::new(class, endian);
            w1.write_bytes(&[7, 7, 7]);
            w2.write_bytes(&[7, 7, 7]);
            w1.write_null_section();
            let n = w2.shentsize();
            w2.write_bytes(&vec![0u8; n]);
            assert_eq!(w1.tell(), w2.tell());
            assert_eq!(w1.into_inner(), w2.into_inner());
        }
    }
}

#[test]
fn consecutive_writes_concatenate() {
    let mut w = Writer::new(Class::Class32, Endianness::Big);
    w.write_bytes(b"abc");
    w.write_bytes(b"defg");
    assert_eq!(w.tell(), 7);
    assert_eq!(w.tell(), 7);
    assert_eq!(w.into_inner(), b"abcdefg".to_vec());
}
