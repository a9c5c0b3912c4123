use kelp::config::Config;
use kelp::elf::{self, Class, ElfFile, Endianness};
use kelp::link::{
    alloc_segments, group_sections, merge_sections, process_parsed_file, InputFile, InputSection,
    LinkError, OutputSection, OutputSegment,
};
use kelp::section;
use kelp::segment;
use kelp::symbol::{Sym, SymBind, SymType};

// shstrtab: "\0.text\0.data\0.bss\0.shstrtab\0.strtab\0"
//            0 1     7     13   18         28
const SHSTRTAB: &[u8] = b"\0.text\0.data\0.bss\0.shstrtab\0.strtab\0";
// strtab: "\0main\0val\0"
const STRTAB: &[u8] = b"\0main\0val\0";

fn data() -> Vec<u8> {
    let mut d = vec![0u8; 16];
    d.extend_from_slice(SHSTRTAB);
    d.extend_from_slice(STRTAB);
    d
}

fn sh(name: usize, typ: section::Type, flags: u32, offset: usize, size: usize, align: u64) -> section::Header {
    section::Header {
        name,
        typ,
        flags: section::Flags::from_bits_retain(flags),
        addr: 0,
        offset,
        size,
        link: 0,
        info: 0,
        align,
        entry_size: 0,
    }
}

fn header(typ: elf::Type, shstrndx: u16) -> elf::Header {
    elf::Header {
        class: Class::Class64,
        endianness: Endianness::Little,
        os_abi: 0,
        abi_version: 0,
        typ,
        machine: 62,
        entry: 0,
        phoff: 0,
        shoff: 0,
        flags: 0,
        header_size: 64,
        phentsize: 0,
        phnum: 0,
        shentsize: 64,
        shnum: 6,
        shstrndx,
    }
}

fn sections() -> Vec<section::Header> {
    let sh_off = 16;
    let st_off = 16 + SHSTRTAB.len();
    vec![
        sh(0, section::Type::Null, 0, 0, 0, 0),
        sh(1, section::Type::Progbits, section::ALLOC | section::EXEC_INSTR, 0, 20, 16),
        sh(7, section::Type::Progbits, section::ALLOC | section::WRITE, 0, 8, 8),
        sh(13, section::Type::Nobits, section::ALLOC | section::WRITE, 0, 32, 8),
        sh(18, section::Type::Strtab, 0, sh_off, SHSTRTAB.len(), 1),
        sh(28, section::Type::Strtab, 0, st_off, STRTAB.len(), 1),
    ]
}

fn syms() -> Vec<Sym> {
    vec![
        Sym { name: 1, bind: SymBind::Global, typ: SymType::Func, other: 0, shndx: 1, value: 0, size: 20 },
        Sym { name: 6, bind: SymBind::Local, typ: SymType::Object, other: 0, shndx: 2, value: 0, size: 4 },
    ]
}

fn parsed<'a>(data: &'a [u8]) -> ElfFile<'a> {
    ElfFile {
        header: header(elf::Type::Relocatable, 4),
        sections: sections(),
        segments: vec![],
        syms: syms(),
        symtab_strtab: 5,
        data,
    }
}

#[test]
fn process_parsed_file_keeps_progbits_sections() {
    let d = data();
    let p = parsed(&d);
    let f = process_parsed_file("a.o".to_string(), &d, &p).unwrap();
    assert_eq!(f.name, "a.o");
    assert_eq!(f.ident.machine, 62);
    assert_eq!(f.sections.len(), 2);
    assert_eq!(f.sections[0].name, b".text".to_vec());
    assert_eq!(f.sections[0].size, 20);
    assert_eq!(f.sections[0].align, 16);
    assert_eq!(f.sections[0].flags.bits(), section::ALLOC | section::EXEC_INSTR);
    assert!(f.sections[0].syms.is_empty());
    assert_eq!(f.sections[1].name, b".data".to_vec());
}

#[test]
fn process_parsed_file_errors() {
    let d = data();
    let mut p = parsed(&d);
    p.header = header(elf::Type::Executable, 4);
    assert_eq!(process_parsed_file("a".into(), &d, &p).err(), Some(LinkError::NotRelocatable));

    let mut p = parsed(&d);
    p.header = header(elf::Type::Relocatable, 0);
    assert_eq!(process_parsed_file("a".into(), &d, &p).err(), Some(LinkError::MissingStringTable));

    let mut p = parsed(&d);
    p.header = header(elf::Type::Relocatable, 9);
    assert_eq!(process_parsed_file("a".into(), &d, &p).err(), Some(LinkError::StringTableIndexOutOfRange));

    let mut p = parsed(&d);
    p.sections[4].flags = section::Flags::from_bits_retain(section::ALLOC);
    assert_eq!(process_parsed_file("a".into(), &d, &p).err(), Some(LinkError::StringTableHasFlags));

    let mut p = parsed(&d);
    p.sections[5].typ = section::Type::Progbits;
    assert_eq!(process_parsed_file("a".into(), &d, &p).err(), Some(LinkError::NotAStringTable));

    let mut p = parsed(&d);
    p.sections[5].size = 1000;
    assert_eq!(process_parsed_file("a".into(), &d, &p).err(), Some(LinkError::StringTableOutOfBounds));

    let mut p = parsed(&d);
    p.sections[3].flags = section::Flags::from_bits_retain(section::LINK_ORDER);
    assert_eq!(process_parsed_file("a".into(), &d, &p).err(), Some(LinkError::LinkOrderUnsupported));

    let mut p = parsed(&d);
    p.sections[2].name = 500;
    assert_eq!(process_parsed_file("a".into(), &d, &p).err(), Some(LinkError::NameOutOfBounds));

    // A symbol name that runs to the end of its table without a nul.
    let mut d2 = data();
    d2.pop();
    let mut p = parsed(&d2);
    p.sections[5].size = STRTAB.len() - 1;
    p.syms[1].name = 6;
    assert_eq!(process_parsed_file("a".into(), &d2, &p).err(), Some(LinkError::UnterminatedName));
}

#[test]
fn symbols_of_skipped_sections_are_not_read() {
    let d = data();
    let mut p = parsed(&d);
    p.syms.push(Sym { name: 999, bind: SymBind::Local, typ: SymType::NoType, other: 0, shndx: 3, value: 0, size: 0 });
    assert!(process_parsed_file("a".into(), &d, &p).is_ok());
    p.syms.push(Sym { name: 999, bind: SymBind::Local, typ: SymType::NoType, other: 0, shndx: 2, value: 0, size: 0 });
    assert_eq!(process_parsed_file("a".into(), &d, &p).err(), Some(LinkError::NameOutOfBounds));
}

fn input(name: &str, flags: u32, size: usize, align: usize) -> InputSection {
    InputSection {
        name: name.as_bytes().to_vec(),
        flags: section::Flags::from_bits_retain(flags),
        addr: 0,
        align,
        size,
        syms: vec![],
    }
}

fn file(secs: Vec<InputSection>) -> InputFile {
    let d = data();
    let p = parsed(&d);
    let mut f = process_parsed_file("x.o".to_string(), &d, &p).unwrap();
    f.sections = secs;
    f
}

#[test]
fn merge_sections_follows_the_configuration() {
    let cfg = Config::parse(b".text:\n  - .text*\n.data:\n  - .data*\n");
    let f1 = file(vec![
        input(".data", section::ALLOC | section::WRITE, 4, 4),
        input(".text", section::ALLOC | section::EXEC_INSTR, 5, 4),
        input(".comment", 0, 9, 1),
    ]);
    let f2 = file(vec![
        input(".texthot", section::ALLOC | section::EXEC_INSTR | section::MERGE, 3, 8),
    ]);
    let outs = merge_sections(vec![f1, f2], &cfg).unwrap();
    assert_eq!(outs.len(), 2);
    assert_eq!(outs[0].name, ".text");
    assert_eq!(outs[0].input_sections.len(), 2);
    assert_eq!(outs[0].input_sections[0].name, b".text".to_vec());
    assert_eq!(outs[0].input_sections[1].name, b".texthot".to_vec());
    // 5 rounded up to 8, plus 3
    assert_eq!(outs[0].size, 11);
    assert_eq!(outs[0].align, 8);
    assert_eq!(outs[0].flags.bits(), section::ALLOC | section::EXEC_INSTR | section::MERGE);
    assert_eq!(outs[1].name, ".data");
    assert_eq!(outs[1].size, 4);
    assert_eq!(outs[1].align, 4);
    // Every matched section is kept once.
    let total: usize = outs.iter().map(|o| o.input_sections.len()).sum();
    assert_eq!(total, 3);
}

#[test]
fn outputs_are_keyed_by_pattern() {
    // Two patterns of one output make two output sections of that name.
    let cfg = Config::parse(b".text:\n  - .text\n  - .text.*\n");
    let f = file(vec![input(".text.a", 0, 1, 1), input(".text", 0, 2, 1)]);
    let outs = merge_sections(vec![f], &cfg).unwrap();
    assert_eq!(outs.len(), 2);
    assert_eq!(outs[0].input_sections[0].name, b".text".to_vec());
    assert_eq!(outs[1].input_sections[0].name, b".text.a".to_vec());
    assert_eq!(outs[0].name, outs[1].name);
}

#[test]
fn group_sections_places_and_orders() {
    let items = vec![
        (3usize, "b".to_string(), input(".b", 1, 3, 2)),
        (1usize, "a".to_string(), input(".a", 2, 1, 0)),
        (3usize, "b".to_string(), input(".b2", 4, 5, 4)),
    ];
    let outs = group_sections(items).unwrap();
    assert_eq!(outs.len(), 2);
    assert_eq!(outs[0].name, "a");
    assert_eq!(outs[0].size, 1);
    assert_eq!(outs[0].align, 0);
    assert_eq!(outs[1].name, "b");
    assert_eq!(outs[1].size, 9);
    assert_eq!(outs[1].align, 4);
    assert_eq!(outs[1].flags.bits(), 5);
}

#[test]
fn group_sections_reports_overflow() {
    let items = vec![
        (0usize, "a".to_string(), input(".a", 0, usize::MAX - 1, 1)),
        (0usize, "a".to_string(), input(".b", 0, 1, 4)),
    ];
    assert_eq!(group_sections(items).err(), Some(LinkError::Overflow));
    let items = vec![
        (0usize, "a".to_string(), input(".a", 0, usize::MAX, 1)),
        (0usize, "a".to_string(), input(".b", 0, 1, 1)),
    ];
    assert_eq!(group_sections(items).err(), Some(LinkError::Overflow));
}

fn output(name: &str, flags: u32, size: usize, align: usize, inputs: Vec<InputSection>) -> OutputSection {
    OutputSection {
        name: name.to_string(),
        input_sections: inputs,
        size,
        align,
        flags: section::Flags::from_bits_retain(flags),
    }
}

#[test]
fn alloc_segments_groups_by_flags() {
    let secs = vec![
        output(".data", section::ALLOC | section::WRITE, 10, 8, vec![]),
        output(".text", section::ALLOC | section::EXEC_INSTR, 5, 4, vec![
            input(".t1", 0, 1, 1),
            input(".t2", 0, 1, 16),
            input(".t3", 0, 1, 4),
            input(".t4", 0, 1, 16),
        ]),
        output(".rodata", section::ALLOC, 3, 1, vec![]),
        output(".bss", section::ALLOC | section::WRITE, 4, 16, vec![]),
    ];
    let segs = alloc_segments(secs).unwrap();
    assert_eq!(segs.len(), 3);
    assert_eq!(segs[0].flags.bits(), segment::READ);
    assert_eq!(segs[1].flags.bits(), segment::READ | segment::EXEC);
    assert_eq!(segs[2].flags.bits(), segment::READ | segment::WRITE);
    for s in &segs {
        assert_eq!(s.virtaddr, 0x201000);
    }
    assert_eq!(segs[2].sections.len(), 2);
    assert_eq!(segs[2].sections[0].name, ".data");
    assert_eq!(segs[2].sections[1].name, ".bss");
    // 10 rounded up to 16, plus 4
    assert_eq!(segs[2].size, 20);
    assert_eq!(segs[0].size, 3);
    // Input sections by descending alignment, equal ones in their order.
    let names: Vec<Vec<u8>> = segs[1].sections[0].input_sections.iter().map(|s| s.name.clone()).collect();
    assert_eq!(names, vec![b".t2".to_vec(), b".t4".to_vec(), b".t3".to_vec(), b".t1".to_vec()]);
    let total: usize = segs.iter().map(|s| s.sections.len()).sum();
    assert_eq!(total, 4);
}

#[test]
fn alloc_segments_of_nothing() {
    assert!(alloc_segments(vec![]).unwrap().is_empty());
}

#[test]
fn alloc_segments_reports_overflow() {
    let secs = vec![output(".t", 0, 1, 1, vec![input(".x", 0, 1, 1usize << (usize::BITS - 1))])];
    assert_eq!(alloc_segments(secs).err(), Some(LinkError::Overflow));
    let secs = vec![output(".a", 0, usize::MAX, 1, vec![]), output(".b", 0, 1, 2, vec![])];
    assert_eq!(alloc_segments(secs).err(), Some(LinkError::Overflow));
}

#[test]
fn huge_alignments_sort_after_the_others() {
    // An alignment above the signed maximum has a positive sort key.
    let big = (1usize << (usize::BITS - 1)) + 1;
    let secs = vec![output(".t", 0, 1, 1, vec![input(".a", 0, 1, big), input(".b", 0, 1, 2)])];
    let segs = alloc_segments(secs).unwrap();
    let names: Vec<Vec<u8>> = segs[0].sections[0].input_sections.iter().map(|s| s.name.clone()).collect();
    assert_eq!(names, vec![b".b".to_vec(), b".a".to_vec()]);
}

#[test]
fn new_segment_is_empty() {
    let s = OutputSegment::new(segment::Flags::from_bits_retain(segment::READ));
    assert!(s.sections.is_empty());
    assert_eq!((s.size, s.virtaddr, s.flags.bits()), (0, 0, segment::READ));
}

#[test]
fn merged_sections_sit_where_the_configuration_says() {
    let cfg = Config::parse(b".text:\n  - .text\n  - .text.*\n.data:\n  - .data*\n");
    let f1 = file(vec![
        input(".text.b", 0, 1, 1),
        input(".data", 0, 1, 1),
        input(".bss", 0, 1, 1),
    ]);
    let f2 = file(vec![input(".text", 0, 1, 1), input(".data1", 0, 1, 1)]);
    let outs = merge_sections(vec![f1, f2], &cfg).unwrap();
    assert_eq!(outs.len(), 3);
    let mut last_key: Option<usize> = None;
    for o in &outs {
        let key = cfg.output_match(&o.input_sections[0].name).unwrap().0;
        if let Some(k) = last_key {
            assert!(k < key);
        }
        last_key = Some(key);
        for s in &o.input_sections {
            assert_eq!(cfg.output_match(&s.name), Some((key, o.name.as_str())));
        }
    }
    assert_eq!(outs[2].input_sections.len(), 2);
    assert_eq!(outs[2].input_sections[0].name, b".data".to_vec());
    assert_eq!(outs[2].input_sections[1].name, b".data1".to_vec());
}
