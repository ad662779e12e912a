use gimli::write::{Address, AttributeValue, DwarfUnit, EndianVec, LineProgram, LineString, Sections};
use object::write::{Object as ObjectFile, Symbol, SymbolSection};
use object::{Architecture, BinaryFormat, Endianness, SectionKind, SymbolFlags, SymbolKind, SymbolScope};
use openepl::symbols::{load, LoadError};

/// An object file with one compilation unit: its producer, name and
/// directory as given, a line program with rows at `0x1000 + offset`, and
/// the text symbols given.
fn built_program(producer: &[u8], name: &[u8], rows: &[(u64, u64)], end: u64, symbols: &[(&str, u64, u64)]) -> Vec<u8> {
    let encoding = gimli::Encoding { format: gimli::Format::Dwarf32, version: 4, address_size: 8 };
    let mut dwarf = DwarfUnit::new(encoding);
    let mut program = LineProgram::new(
        encoding,
        gimli::LineEncoding::default(),
        LineString::String(b"/work".to_vec()),
        None,
        LineString::String(name.to_vec()),
        None,
    );
    let dir = program.default_directory();
    let file = program.add_file(LineString::String(name.to_vec()), dir, None);
    program.begin_sequence(Some(Address::Constant(0x1000)));
    for (offset, line) in rows {
        program.row().file = file;
        program.row().address_offset = *offset;
        program.row().line = *line;
        program.row().column = 2;
        program.row().is_statement = true;
        program.generate_row();
    }
    program.end_sequence(end);
    dwarf.unit.line_program = program;
    let root = dwarf.unit.root();
    let entry = dwarf.unit.get_mut(root);
    entry.set(gimli::DW_AT_producer, AttributeValue::String(producer.to_vec()));
    entry.set(gimli::DW_AT_name, AttributeValue::String(name.to_vec()));
    entry.set(gimli::DW_AT_comp_dir, AttributeValue::String(b"/work".to_vec()));
    let mut sections = Sections::new(EndianVec::new(gimli::LittleEndian));
    dwarf.write(&mut sections).unwrap();

    let mut obj = ObjectFile::new(BinaryFormat::Elf, Architecture::X86_64, Endianness::Little);
    let text = obj.add_section(Vec::new(), b".text".to_vec(), SectionKind::Text);
    obj.append_section_data(text, &[0x90; 64], 16);
    for (sym, value, size) in symbols {
        obj.add_symbol(Symbol {
            name: sym.as_bytes().to_vec(),
            value: *value,
            size: *size,
            kind: SymbolKind::Text,
            scope: SymbolScope::Linkage,
            weak: false,
            section: SymbolSection::Section(text),
            flags: SymbolFlags::None,
        });
    }
    sections
        .for_each(|id, data| -> Result<(), ()> {
            if !data.slice().is_empty() {
                let s = obj.add_section(Vec::new(), id.name().as_bytes().to_vec(), SectionKind::Debug);
                obj.append_section_data(s, data.slice(), 1);
            }
            Ok(())
        })
        .unwrap();
    obj.write().unwrap()
}

#[test]
fn a_built_program_loads_its_line_table_and_functions() {
    let bytes = built_program(
        b"OpenEPL 0.1",
        b"demo.oir",
        &[(0, 3), (8, 4), (16, 7)],
        24,
        &[("oe_user_main", 0x1000, 16), ("oe_user_helper", 0x1010, 8), ("printf", 0x1018, 8)],
    );
    let p = load(&bytes).unwrap();
    assert_eq!(p.source, "demo.oir");
    assert_eq!(p.directory, "/work");
    assert_eq!(p.rows.len(), 4);
    assert_eq!(p.line_for(0x1000).map(|r| r.line), Some(3));
    assert_eq!(p.line_for(0x100c).map(|r| r.line), Some(4));
    assert_eq!(p.line_for(0x1010).map(|r| r.line), Some(7));
    assert_eq!(p.breakpoint_for(7).map(|r| r.address), Some(0x1010));
    assert_eq!(p.addresses_for(4), vec![0x1008]);
    let subs = p.subprograms();
    assert_eq!(subs.len(), 2);
    assert_eq!(subs[0].name, "main");
    assert_eq!(subs[0].low_pc, 0x1000);
    assert_eq!(subs[1].name, "helper");
    assert_eq!(p.subprogram_for(0x1012).map(|s| s.name.clone()), Some("helper".to_string()));
}

#[test]
fn a_source_name_that_is_not_utf8_is_read_with_replacements() {
    let bytes = built_program(b"OpenEPL 0.1", b"demo\xff.oir", &[(0, 1)], 4, &[]);
    let p = load(&bytes).unwrap();
    assert_eq!(p.source, "demo\u{fffd}.oir");
}

#[test]
fn units_another_compiler_produced_are_not_read() {
    let bytes = built_program(b"GNU C17 13.2", b"crt.c", &[(0, 1), (4, 2)], 8, &[]);
    assert!(matches!(load(&bytes), Err(LoadError::NoDebugInfo)));
}

#[test]
fn bytes_that_are_no_object_file_are_refused_as_such() {
    assert!(matches!(load(b"this is not an object file"), Err(LoadError::Object(_))));
}
