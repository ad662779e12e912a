use openepl::desugar::{component_types, expand_defer, is_place};
use openepl::dwarf::{LineEntry, SymbolEntry};
use openepl::layout::c_field_size_align;
use openepl::lexer::{lex, Tok};
use openepl::parser::{parse, parse_with, unescape_braces, ParseError, ParseOptions};
use openepl::sema::{field_type, property_desc, property_type};
use openepl::registry::{ComponentDesc, PropertyDesc, Registry};
use openepl::symbols::{assemble, is_ours, load, table_row, user_function, LoadError, Program, Row, Subprogram};
use openepl::types::{carray, intern, BinOp, CallConv, CmpOp, Elem, Expr, Item, RecordDef, Signature, Stmt, StmtKind, Target, Ty};
use openepl::validate::{
    always_returns, backtick_end, backticked, check_initializer, check_loop_control, check_record_cycles, closest,
    did_you_mean, edit_distance, type_list, undeclared_type, ValidateError,
};

fn row(address: u64, line: u32, is_stmt: bool, end_sequence: bool) -> Row {
    Row { address, line, column: 1, is_stmt, end_sequence }
}

fn body_of(src: &str) -> Vec<Stmt> {
    let m = parse(src).unwrap();
    for item in m.items {
        if let Item::Sub(s) = item {
            return s.body;
        }
    }
    panic!("expected a subroutine")
}

// --- the line table --------------------------------------------------------

#[test]
fn a_new_program_puts_its_table_in_address_order() {
    let p = Program::new(
        "a.oir".into(),
        ".".into(),
        vec![row(0x30, 0, false, true), row(0x10, 2, true, false), row(0x20, 3, true, false)],
        vec![
            Subprogram { name: "b".into(), symbol: "oe_user_b".into(), low_pc: 0x20, size: 0x10 },
            Subprogram { name: "a".into(), symbol: "oe_user_a".into(), low_pc: 0x10, size: 0x10 },
        ],
    );
    let addrs: Vec<u64> = p.rows().iter().map(|r| r.address).collect();
    assert_eq!(addrs, vec![0x10, 0x20, 0x30]);
    let names: Vec<&str> = p.subprograms().iter().map(|s| s.name.as_str()).collect();
    assert_eq!(names, vec!["a", "b"]);
    assert_eq!(p.source, "a.oir");
}

#[test]
fn an_end_marker_sorts_after_a_row_at_its_address_and_closes_it() {
    // At one address a row sorts before an end marker, and the row covering
    // an address is the last one at or before it: past 0x20 is a gap.
    let p = Program::new(
        "a.oir".into(),
        ".".into(),
        vec![row(0x10, 2, true, false), row(0x20, 0, false, true), row(0x20, 9, true, false), row(0x28, 0, false, true)],
        vec![],
    );
    assert_eq!(p.rows()[1].line, 9);
    assert!(p.rows()[2].end_sequence);
    assert_eq!(p.line_for(0x1f).unwrap().line, 2);
    assert!(p.line_for(0x24).is_none());
    assert!(p.line_for(0x28).is_none());
}

#[test]
fn a_breakpoint_is_among_the_addresses_of_its_line() {
    let p = Program::new(
        "a.oir".into(),
        ".".into(),
        vec![row(0x10, 2, true, false), row(0x18, 4, true, false), row(0x30, 4, true, false), row(0x40, 0, false, true)],
        vec![],
    );
    let b = p.breakpoint_for(3).unwrap();
    assert_eq!(b.line, 4);
    assert!(p.addresses_for(b.line).contains(&b.address));
    assert_eq!(p.addresses_for(4), vec![0x18, 0x30]);
}

#[test]
fn a_function_s_extent_is_half_open() {
    let f = Subprogram { name: "f".into(), symbol: "oe_user_f".into(), low_pc: 0x100, size: 0x10 };
    assert!(f.contains(0x100));
    assert!(f.contains(0x10f));
    assert!(!f.contains(0x110));
    assert!(!f.contains(0xff));
    let edge = Subprogram { name: "g".into(), symbol: "oe_user_g".into(), low_pc: u64::MAX - 1, size: 4 };
    assert!(edge.contains(u64::MAX));
}

#[test]
fn a_line_program_row_becomes_a_table_row() {
    let e = LineEntry { address: 0x40, line: Some(7), column: Some(3), is_stmt: true, end_sequence: false };
    assert_eq!(table_row(&e), Some(Row { address: 0x40, line: 7, column: 3, is_stmt: true, end_sequence: false }));
    let left = LineEntry { address: 0x40, line: Some(7), column: None, is_stmt: false, end_sequence: false };
    assert_eq!(table_row(&left).unwrap().column, 0);
    let end = LineEntry { address: 0x50, line: None, column: None, is_stmt: false, end_sequence: true };
    assert_eq!(table_row(&end).unwrap().line, 0);
    let lost = LineEntry { address: 0x50, line: None, column: None, is_stmt: true, end_sequence: false };
    assert_eq!(table_row(&lost), None);
}

#[test]
fn only_this_compiler_s_units_are_read() {
    assert!(is_ours(b"OpenEPL 0.9"));
    assert!(is_ours(b"OpenEPL"));
    assert!(!is_ours(b"GNU C17 13.2"));
    assert!(!is_ours(b"Open"));
    assert!(!is_ours(b""));
}

#[test]
fn a_user_symbol_loses_its_prefix() {
    let s = SymbolEntry { is_text: true, name: Some("oe_user_main".into()), address: 0x10, size: 4 };
    let f = user_function(s).unwrap();
    assert_eq!((f.name.as_str(), f.symbol.as_str(), f.low_pc, f.size), ("main", "oe_user_main", 0x10, 4));
    let data = SymbolEntry { is_text: false, name: Some("oe_user_main".into()), address: 0x10, size: 4 };
    assert!(user_function(data).is_none());
    let libc = SymbolEntry { is_text: true, name: Some("printf".into()), address: 0x10, size: 4 };
    assert!(user_function(libc).is_none());
    let unnamed = SymbolEntry { is_text: true, name: None, address: 0x10, size: 4 };
    assert!(user_function(unnamed).is_none());
}

#[test]
fn an_empty_table_is_no_debug_information() {
    let r = assemble("a".into(), "b".into(), vec![], vec![]);
    assert!(matches!(r, Err(LoadError::NoDebugInfo)));
    let syms = vec![
        SymbolEntry { is_text: true, name: Some("oe_user_b".into()), address: 0x20, size: 4 },
        SymbolEntry { is_text: true, name: Some("_start".into()), address: 0x00, size: 4 },
        SymbolEntry { is_text: true, name: Some("oe_user_a".into()), address: 0x10, size: 4 },
    ];
    let p = assemble("a".into(), "b".into(), vec![row(0x10, 1, true, false)], syms).unwrap();
    let names: Vec<&str> = p.subprograms().iter().map(|s| s.name.as_str()).collect();
    assert_eq!(names, vec!["a", "b"]);
}

#[test]
fn bytes_that_are_no_object_file_are_refused() {
    assert!(matches!(load(b"not an object file at all"), Err(LoadError::Object(_))));
}

#[test]
fn an_object_file_with_no_sections_has_no_debug_information() {
    // A 64-bit little-endian ELF header and nothing else.
    let mut elf = vec![0x7f, b'E', b'L', b'F', 2, 1, 1, 0, 0, 0, 0, 0, 0, 0, 0, 0];
    elf.extend_from_slice(&2u16.to_le_bytes()); // e_type: executable
    elf.extend_from_slice(&0x3eu16.to_le_bytes()); // e_machine: x86-64
    elf.extend_from_slice(&1u32.to_le_bytes()); // e_version
    elf.extend_from_slice(&0u64.to_le_bytes()); // e_entry
    elf.extend_from_slice(&0u64.to_le_bytes()); // e_phoff
    elf.extend_from_slice(&0u64.to_le_bytes()); // e_shoff
    elf.extend_from_slice(&0u32.to_le_bytes()); // e_flags
    elf.extend_from_slice(&64u16.to_le_bytes()); // e_ehsize
    elf.extend_from_slice(&56u16.to_le_bytes()); // e_phentsize
    elf.extend_from_slice(&0u16.to_le_bytes()); // e_phnum
    elf.extend_from_slice(&64u16.to_le_bytes()); // e_shentsize
    elf.extend_from_slice(&0u16.to_le_bytes()); // e_shnum
    elf.extend_from_slice(&0u16.to_le_bytes()); // e_shstrndx
    assert!(matches!(load(&elf), Err(LoadError::NoDebugInfo)));
}


// --- the validator's text ----------------------------------------------------

#[test]
fn a_transposition_is_one_edit() {
    assert_eq!(edit_distance("teh", "the"), 1);
    assert_eq!(edit_distance("kitten", "sitting"), 3);
    assert_eq!(edit_distance("", "abc"), 3);
    assert_eq!(edit_distance("same", "same"), 0);
    assert_eq!(edit_distance("ca", "abc"), 3);
}

#[test]
fn the_distance_is_the_same_both_ways() {
    for (a, b) in [("print_text", "prnit_txt"), ("ab", "ba"), ("x", "")] {
        assert_eq!(edit_distance(a, b), edit_distance(b, a));
    }
}

#[test]
fn closest_finds_a_slip_and_never_the_name_itself() {
    let cands = ["print_text", "print_int", "concat"];
    assert_eq!(closest("prnt_text", &cands), Some("print_text"));
    assert_eq!(closest("Print_text", &cands), Some("print_text"));
    assert_eq!(closest("print_text", &cands), None);
    assert_eq!(closest("zzz", &cands), None);
    // A tie goes to the one that sorts first.
    assert_eq!(closest("abd", &["abc", "abb"]), Some("abb"));
}

#[test]
fn closest_allows_a_slip_but_not_a_different_word() {
    let names = ["print_text", "print_int", "length", "concat"];
    assert_eq!(closest("prnt_text", &names), Some("print_text"));
    assert_eq!(closest("lenght", &names), Some("length"));
    assert_eq!(closest("Length", &names), Some("length"));
    assert_eq!(closest("print", &names), None);
    assert_eq!(closest("xyz", &names), None);
    assert_eq!(closest("length", &names), None, "an exact match is not a suggestion");
}

#[test]
fn did_you_mean_names_the_fix_or_nothing() {
    assert_eq!(did_you_mean("conact", &["concat"]), " — did you mean `concat`?");
    assert_eq!(did_you_mean("qqqqqq", &["concat"]), "");
}

#[test]
fn backticks_bound_the_name_in_a_message() {
    assert_eq!(backticked("unknown command `foo` here").as_deref(), Some("foo"));
    assert_eq!(backticked("no name here"), None);
    assert_eq!(backticked("one `tick only"), None);
    assert_eq!(backtick_end("foo` — rest").as_deref(), Some("foo"));
    assert_eq!(backtick_end("no tick"), None);
}

#[test]
fn a_type_list_is_the_spellings_joined() {
    assert_eq!(type_list(&[Ty::Int, Ty::Text]), "int, text");
    assert_eq!(type_list(&[]), "");
    assert_eq!(type_list(&[Ty::Array(Elem::Int)]), "int[]");
}

#[test]
fn a_record_that_contains_itself_is_reported_once() {
    let m = parse(
        "module m\nrecord a\n  b: b\nend\nrecord b\n  a: a\nend\nrecord c\n  n: int\nend\nrecord d\n  d: d\nend\nsub main\nend\n",
    )
    .unwrap();
    let recs: Vec<&RecordDef> = m.records();
    let errs = check_record_cycles(&recs);
    let lines: Vec<usize> = errs.iter().map(|e| e.line).collect();
    assert_eq!(lines, vec![2, 5, 11]);
    assert!(errs[0].msg.starts_with("record `a` contains itself"));
    assert!(errs[2].msg.ends_with("(`d[]`) can."));
}

#[test]
fn a_list_of_itself_is_not_a_cycle() {
    let m = parse("module m\nrecord node\n  kids: node[]\nend\nsub main\nend\n").unwrap();
    assert!(check_record_cycles(&m.records()).is_empty());
}

#[test]
fn a_diagnostic_reads_with_its_line() {
    let e = ValidateError { msg: "bad".into(), line: 3, col: 2, end_col: 5 };
    assert_eq!(e.message(), "line 3: bad");
    let s = e.span();
    assert_eq!((s.line, s.col, s.end_col), (3, 2, 5));
    let e = ValidateError { msg: "bad".into(), line: 0, col: 0, end_col: 0 };
    assert_eq!(e.message(), "bad");
}

#[test]
fn a_component_knows_its_properties_and_events() {
    let c = ComponentDesc {
        name: "button".into(),
        a11y_role: 1,
        properties: vec![
            PropertyDesc { name: "text".into(), ty: Ty::Text },
            PropertyDesc { name: "width".into(), ty: Ty::Int },
        ],
        events: vec!["click".into()],
    };
    assert_eq!(c.property("width").unwrap().ty, Ty::Int);
    assert!(c.property("height").is_none());
    assert!(c.has_event("click"));
    assert!(!c.has_event("hover"));
}

// --- defer -----------------------------------------------------------------

#[test]
fn a_defer_runs_at_the_end_of_its_block() {
    let body = body_of("module m\nsub main\n  defer call close(1)\n  call work(2)\nend\n");
    let out = expand_defer(&body, None);
    assert_eq!(out.len(), 2);
    assert!(matches!(&out[0].kind, StmtKind::Call { cmd, .. } if cmd == "work"));
    assert!(matches!(&out[1].kind, StmtKind::Call { cmd, .. } if cmd == "close"));
}

#[test]
fn a_return_value_is_read_before_the_cleanup() {
    let body = body_of("module m\nsub f(): int\n  defer call close(1)\n  return 5\nend\n");
    let out = expand_defer(&body, Some(Ty::Int));
    // The copy at the block's end stays too, after the `return`.
    assert_eq!(out.len(), 4);
    assert!(matches!(&out[0].kind, StmtKind::Let { name, ty: Ty::Int, .. } if name == "$defer$1"));
    assert!(matches!(&out[1].kind, StmtKind::Call { cmd, .. } if cmd == "close"));
    assert!(matches!(&out[2].kind, StmtKind::Return { value: Some(Expr::Var(v)) } if v == "$defer$1"));
}

#[test]
fn cleanups_unwind_in_reverse_order() {
    let body = body_of("module m\nsub main\n  defer call first(1)\n  defer call second(2)\nend\n");
    let out = expand_defer(&body, None);
    let cmds: Vec<&str> = out
        .iter()
        .map(|s| match &s.kind {
            StmtKind::Call { cmd, .. } => cmd.as_str(),
            _ => "",
        })
        .collect();
    assert_eq!(cmds, vec!["second", "first"]);
}

#[test]
fn a_break_runs_the_loop_body_s_cleanup_only() {
    let body = body_of(
        "module m\nsub main\n  defer call outer(1)\n  while true\n    defer call inner(2)\n    break\n  end\nend\n",
    );
    let out = expand_defer(&body, None);
    let StmtKind::While { body: inner, .. } = &out[0].kind else { panic!("expected a loop") };
    assert!(matches!(&inner[0].kind, StmtKind::Call { cmd, .. } if cmd == "inner"));
    assert!(matches!(&inner[1].kind, StmtKind::Break));
    assert!(matches!(&out[1].kind, StmtKind::Call { cmd, .. } if cmd == "outer"));
}

#[test]
fn a_compound_statement_cannot_be_deferred() {
    assert!(parse("module m\nsub main\n  defer while true\n  end\nend\n").is_err());
}

// --- lexing and parsing ---------------------------------------------------

#[test]
fn a_raw_literal_is_one_token() {
    let t = lex("r\"a\\b{c}\"").unwrap();
    assert_eq!(t[0].tok, Tok::RawStr("a\\b{c}".into()));
    assert_eq!(t[1].tok, Tok::Eof);
}

#[test]
fn a_block_literal_keeps_its_lines_and_counts_them() {
    let t = lex("\"\"\"\nx\ny\"\"\"\nz").unwrap();
    assert_eq!(t[0].tok, Tok::Str("x\ny".into()));
    assert_eq!(t[0].line, 1);
    assert_eq!(t[2].tok, Tok::Ident("z".into()));
    assert_eq!(t[2].line, 4);
    assert!(lex("\"\"\"never closed").is_err());
}

#[test]
fn an_unknown_escape_names_the_character() {
    let e = lex("\"a\\q\"").unwrap_err();
    assert_eq!(e.msg, "unknown escape: \\q");
}

#[test]
fn blank_lines_collapse_to_one_newline() {
    let t = lex("a\n\n\nb").unwrap();
    let kinds: Vec<&Tok> = t.iter().map(|s| &s.tok).collect();
    assert_eq!(kinds, vec![&Tok::Ident("a".into()), &Tok::Newline, &Tok::Ident("b".into()), &Tok::Eof]);
}

#[test]
fn a_parse_error_reads_with_its_line() {
    let e = ParseError { line: 7, msg: "oops".into() };
    assert_eq!(e.message(), "parse error (line 7): oops");
}

#[test]
fn a_release_parse_drops_asserts() {
    let src = "module m\nsub main\n  assert 1 < 2\nend\n";
    let with = parse_with(src, ParseOptions { asserts: true }).unwrap();
    let without = parse_with(src, ParseOptions { asserts: false }).unwrap();
    assert_eq!(with.subs()[0].body.len(), 1);
    assert_eq!(without.subs()[0].body.len(), 0);
}

#[test]
fn a_hole_that_does_not_parse_shows_its_text() {
    let e = parse("module m\nsub main\n  let s: text = \"x{ 1 + }\"\nend\n").unwrap_err();
    assert!(e.msg.starts_with("in the interpolation hole `{1 +}`"), "{}", e.msg);
}

#[test]
fn a_raw_library_path_is_kept_as_written() {
    let m = parse("module m\ndll f(): int from r\"C:\\tools\\my.dll\"\n").unwrap();
    assert_eq!(m.dlls()[0].library, "C:\\tools\\my.dll");
}

// --- types ------------------------------------------------------------------

#[test]
fn interned_names_and_inline_arrays_keep_what_they_were_given() {
    assert_eq!(intern("point"), "point");
    let t = carray(Ty::Byte, 16);
    let Ty::CArray(a) = t else { panic!("expected an inline array") };
    assert_eq!((a.elem, a.count), (Ty::Byte, 16));
}

#[test]
fn type_spellings_read_back_as_the_type() {
    for t in [Ty::Int, Ty::Int64, Ty::Double, Ty::Text, Ty::Bool, Ty::Bytes, Ty::Ptr] {
        assert_eq!(Ty::from_keyword(t.as_str()), Some(t));
    }
    assert_eq!(Ty::Array(Elem::Text).as_str(), "text[]");
}

#[test]
fn c_layout_sizes() {
    assert_eq!(Ty::Byte.c_size_align(), Some((1, 1)));
    assert_eq!(Ty::Int16.c_size_align(), Some((2, 2)));
    assert_eq!(Ty::Bool.c_size_align(), Some((4, 4)));
    assert_eq!(Ty::Ptr.c_size_align(), Some((8, 8)));
    assert_eq!(Ty::Array(Elem::Int).c_size_align(), None);
}

#[test]
fn slot_tags_read_back_as_the_type() {
    for t in [Ty::Int, Ty::Text, Ty::Array(Elem::Double), Ty::Dict(Elem::Bool)] {
        assert_eq!(Ty::from_sdt_tag(t.sdt_tag()), Some(t));
    }
    assert_eq!(Ty::Text.sdt_tag(), 9);
    assert_eq!(Ty::Array(Elem::Int).sdt_tag(), 0x100 | 3);
    for t in [
        Ty::Int64, Ty::Double, Ty::Bool, Ty::Bytes, Ty::Ptr, Ty::AnyElem, Ty::AnyArray, Ty::AnyDict,
        Ty::Array(Elem::Int), Ty::Array(Elem::Int64), Ty::Array(Elem::Text), Ty::Array(Elem::Bool),
        Ty::Dict(Elem::Int), Ty::Dict(Elem::Int64), Ty::Dict(Elem::Double), Ty::Dict(Elem::Text),
    ] {
        assert_eq!(Ty::from_sdt_tag(t.sdt_tag()), Some(t));
    }
    assert_eq!(Ty::from_sdt_tag(0), None);
    assert_eq!(Ty::from_sdt_tag(0x100 | 10), None);
}

#[test]
fn conventions_and_targets_read_back() {
    for c in [CallConv::Cdecl, CallConv::Stdcall, CallConv::System] {
        assert_eq!(CallConv::parse(c.as_str()), Some(c));
    }
    for w in ["fastcall", "pascal", "Stdcall", ""] {
        assert_eq!(CallConv::parse(w), None);
    }
    for t in [Target::Console, Target::Gui, Target::SharedLib, Target::StaticLib] {
        assert_eq!(Target::parse(t.as_str()), Some(t));
    }
    for w in ["shared", "dll", "so"] {
        assert_eq!(Target::parse(w), Some(Target::SharedLib));
    }
    assert_eq!(Target::parse("static"), Some(Target::StaticLib));
    assert_eq!(Target::parse("exe"), None);
    assert_eq!(Target::parse("Console"), None);
}

#[test]
fn only_the_orderings_are_orderings() {
    for op in [CmpOp::Eq, CmpOp::Ne, CmpOp::Lt, CmpOp::Le, CmpOp::Gt, CmpOp::Ge] {
        assert_eq!(op.is_ordering(), !(op.symbol() == "=" || op.symbol() == "<>"));
    }
}

// --- the registry ------------------------------------------------------------

#[test]
fn the_core_set_calls_the_runtime_by_name() {
    let r = Registry::core_set();
    assert_eq!(r.len(), 51);
    assert!(!r.is_empty());
    let c = r.get("print_int").unwrap();
    assert_eq!(c.symbol, "oe_print_int");
    assert_eq!(c.sig.params, vec![Ty::Int]);
    assert_eq!(c.sig.ret, None);
    assert_eq!(r.get("substr").unwrap().sig.params, vec![Ty::Text, Ty::Int, Ty::Int]);
    for (name, cmd) in r.iter() {
        assert_eq!(cmd.symbol, format!("oe_{name}"));
    }
    assert!(r.get("no_such_command").is_none());
}

#[test]
fn a_command_name_is_taken_once() {
    let mut r = Registry::new();
    assert!(r.is_empty());
    assert!(r.insert("f".into(), Signature::simple(vec![], None), "oe_f".into()));
    assert!(!r.insert("f".into(), Signature::simple(vec![Ty::Int], None), "oe_g".into()));
    assert_eq!(r.len(), 1);
    assert_eq!(r.get("f").unwrap().symbol, "oe_f");
    assert_eq!(r.names(), vec!["f"]);
}

#[test]
fn a_subroutine_may_not_take_a_command_s_name() {
    let mut r = Registry::core_set();
    let m = parse("module m\nsub length(s: text): int\n  return 1\nend\nsub helper(n: int)\nend\nsub main\nend\n").unwrap();
    let clashes = r.register_subs(&m);
    assert_eq!(clashes, vec!["length".to_string()]);
    assert!(r.is_sub("helper"));
    assert!(r.is_sub("main"));
    assert!(!r.is_sub("length"));
    assert_eq!(r.sub("helper").unwrap().params, vec![Ty::Int]);
    assert_eq!(r.sub("helper").unwrap().names, vec!["n".to_string()]);
    let mut names = r.sub_names();
    names.sort();
    assert_eq!(names, vec!["helper", "main"]);
}

#[test]
fn a_component_type_is_registered_once() {
    let mut r = Registry::default();
    let button = || ComponentDesc { name: "button".into(), a11y_role: 1, properties: vec![], events: vec!["click".into()] };
    assert!(r.insert_component(button()));
    assert!(!r.insert_component(button()));
    assert!(r.component("button").unwrap().has_event("click"));
    assert!(r.component("label").is_none());
    assert_eq!(r.component_names(), vec!["button"]);
}

// --- C layout ----------------------------------------------------------------

fn c_record(name: &str, fields: &[(&str, Ty)], is_c: bool) -> RecordDef {
    RecordDef {
        name: name.to_string(),
        fields: fields.iter().map(|(n, t)| (n.to_string(), *t)).collect(),
        is_c,
        line: 0,
    }
}

#[test]
fn a_field_has_the_size_of_its_c_type() {
    let reg = Registry::new();
    assert_eq!(c_field_size_align(Ty::Int, &reg), Some((4, 4)));
    assert_eq!(c_field_size_align(Ty::Text, &reg), Some((8, 8)));
    assert_eq!(c_field_size_align(carray(Ty::Int16, 3), &reg), Some((6, 2)));
    assert_eq!(c_field_size_align(Ty::Array(Elem::Int), &reg), None);
    assert_eq!(c_field_size_align(Ty::Record(intern("Nowhere")), &reg), None);
}

#[test]
fn a_heap_record_has_no_c_layout_as_a_field() {
    let mut reg = Registry::new();
    reg.insert_record(c_record("Heap", &[("x", Ty::Int)], false));
    assert_eq!(c_field_size_align(Ty::Record(intern("Heap")), &reg), None);
    let outer = c_record("Outer", &[("h", Ty::Record(intern("Heap")))], true);
    assert_eq!(outer.c_layout(&reg), None);
}

#[test]
fn padding_goes_before_a_wider_field_and_at_the_tail() {
    let reg = Registry::new();
    let r = c_record("R", &[("a", Ty::Byte), ("b", Ty::Int64), ("c", Ty::Int16)], true);
    let (offsets, size, align) = r.c_layout(&reg).unwrap();
    assert_eq!(offsets, vec![0, 8, 16]);
    assert_eq!(size, 24);
    assert_eq!(align, 8);
    let empty = c_record("E", &[], true);
    assert_eq!(empty.c_layout(&reg), Some((vec![], 0, 1)));
}

#[test]
fn a_record_that_holds_itself_nests_too_deep_for_a_layout() {
    let mut reg = Registry::new();
    reg.insert_record(c_record("Loop", &[("next", Ty::Record(intern("Loop")))], true));
    assert_eq!(c_field_size_align(Ty::Record(intern("Loop")), &reg), None);
}

#[test]
fn a_record_registered_again_replaces_the_first() {
    let mut reg = Registry::new();
    reg.insert_record(c_record("P", &[("x", Ty::Int)], true));
    reg.insert_record(c_record("P", &[("x", Ty::Int64), ("y", Ty::Int64)], true));
    assert_eq!(reg.record("P").unwrap().fields.len(), 2);
    assert_eq!(c_field_size_align(Ty::Record(intern("P")), &reg), Some((16, 8)));
    assert!(reg.record("Q").is_none());
}

#[test]
fn an_array_too_large_for_a_layout_has_none() {
    let reg = Registry::new();
    let huge = carray(carray(carray(Ty::Int64, u32::MAX), u32::MAX), u32::MAX);
    assert_eq!(c_field_size_align(huge, &reg), None);
}

// --- control flow ------------------------------------------------------------

#[test]
fn an_if_without_an_else_does_not_always_return() {
    let body = body_of("module m\nsub pick(n: int): int\n  if n > 0\n    return 1\n  end\nend\n");
    assert!(!always_returns(&body));
}

#[test]
fn an_if_else_that_both_return_always_returns() {
    let body = body_of(
        "module m\nsub sign(n: int): int\n  if n > 0\n    return 1\n  else\n    return 0\n  end\nend\n",
    );
    assert!(always_returns(&body));
    let body = body_of("module m\nsub f(n: int): int\n  call print_int(n)\n  return n\nend\n");
    assert!(always_returns(&body));
}

#[test]
fn a_while_never_counts_as_returning() {
    let body = body_of("module m\nsub f(n: int): int\n  while n > 0\n    return 1\n  end\nend\n");
    assert!(!always_returns(&body));
    assert!(!always_returns(&Vec::new()));
}

#[test]
fn a_break_outside_a_loop_is_reported_on_its_line() {
    let body = body_of("module m\nsub main\n  break\nend\n");
    let e = check_loop_control(&body, false, "main");
    assert_eq!(e.len(), 1);
    assert_eq!(e[0].msg, "in `main`: `break` is only meaningful inside a `while` or `for`");
    assert_eq!(e[0].line, 3);
}

#[test]
fn a_jump_inside_an_if_inherits_the_enclosing_loop() {
    let body = body_of("module m\nsub main\n  while true\n    if true\n      break\n    end\n  end\nend\n");
    assert!(check_loop_control(&body, false, "main").is_empty());
    let body = body_of("module m\nsub main\n  if true\n    continue\n  else\n    break\n  end\nend\n");
    let e = check_loop_control(&body, false, "main");
    assert_eq!(e.len(), 2);
    assert_eq!(e[0].msg, "in `main`: `continue` is only meaningful inside a `while` or `for`");
    assert_eq!(e[0].line, 4);
    assert_eq!(e[1].msg, "in `main`: `break` is only meaningful inside a `while` or `for`");
    assert_eq!(e[1].line, 6);
    let body = body_of("module m\nsub main\n  for i = 1 to 10\n    if i = 3\n      continue\n    end\n  end\nend\n");
    assert!(check_loop_control(&body, false, "main").is_empty());
}

// --- component properties ----------------------------------------------------

fn form_registry() -> Registry {
    let mut r = Registry::new();
    r.insert_component(ComponentDesc {
        name: "button".into(),
        a11y_role: 1,
        properties: vec![
            PropertyDesc { name: "width".into(), ty: Ty::Int },
            PropertyDesc { name: "text".into(), ty: Ty::Text },
            PropertyDesc { name: "enabled".into(), ty: Ty::Bool },
        ],
        events: vec!["click".into()],
    });
    r
}

#[test]
fn a_property_resolves_through_the_form_and_the_component_type() {
    let reg = form_registry();
    let form = vec![("ok".to_string(), "button".to_string())];
    assert_eq!(property_type("ok", "text", &reg, &form).unwrap(), Ty::Text);
    assert_eq!(property_desc("ok", "width", &reg, &form).unwrap().ty, Ty::Int);
}

#[test]
fn each_way_a_property_can_be_missing_has_its_own_diagnostic() {
    let reg = form_registry();
    let form = vec![("ok".to_string(), "button".to_string()), ("pic".to_string(), "image".to_string())];
    assert_eq!(
        property_type("cancel", "text", &reg, &form).unwrap_err().msg,
        "unknown component `cancel` (component ids come from the form)"
    );
    assert_eq!(
        property_type("pic", "src", &reg, &form).unwrap_err().msg,
        "component `pic` has unknown type `image`"
    );
    assert_eq!(
        property_type("ok", "colour", &reg, &form).unwrap_err().msg,
        "`button` has no property `colour` (has: enabled, text, width)"
    );
}

// --- module variable initializers --------------------------------------------

fn registry_with_helper() -> Registry {
    let m = parse("module m\nsub helper(n: int): int\n  return n\nend\n").unwrap();
    let mut r = Registry::core_set();
    assert!(r.register_subs(&m).is_empty());
    r
}

#[test]
fn an_initializer_may_use_literals_and_commands() {
    let reg = registry_with_helper();
    let globals = vec![("g".to_string(), Ty::Int)];
    let e = Expr::Call { cmd: "length".into(), args: vec![Expr::TextLit("abc".into())] };
    assert_eq!(check_initializer(&e, &globals, &reg), Ok(()));
    let e = Expr::Bin(BinOp::Add, Box::new(Expr::IntLit(1)), Box::new(Expr::IntLit(2)));
    assert_eq!(check_initializer(&e, &globals, &reg), Ok(()));
}

#[test]
fn an_initializer_may_not_read_a_variable_or_call_a_subroutine() {
    let reg = registry_with_helper();
    let globals = vec![("g".to_string(), Ty::Int)];
    let read_g = Expr::Neg(Box::new(Expr::Var("g".into())));
    assert_eq!(
        check_initializer(&read_g, &globals, &reg),
        Err("cannot read module variable `g` here; module variable initializers may use literals and command calls only"
            .to_string())
    );
    assert_eq!(
        check_initializer(&Expr::Var("x".into()), &globals, &reg),
        Err("unknown variable `x`".to_string())
    );
    let call = Expr::Call { cmd: "helper".into(), args: vec![] };
    assert_eq!(
        check_initializer(&call, &globals, &reg),
        Err("cannot call subroutine `helper` here; module variable initializers may use literals and command calls only"
            .to_string())
    );
    let prop = Expr::GetProperty { component: "ok".into(), property: "text".into() };
    let sum = Expr::Bin(BinOp::Add, Box::new(Expr::IntLit(1)), Box::new(prop));
    assert_eq!(
        check_initializer(&sum, &globals, &reg),
        Err("cannot read a component property before the form exists".to_string())
    );
}

#[test]
fn the_first_problem_in_reading_order_is_the_one_reported() {
    let reg = registry_with_helper();
    let globals = vec![("g".to_string(), Ty::Int)];
    let d = Expr::DictLit(vec![
        (Expr::TextLit("a".into()), Expr::IntLit(1)),
        (Expr::TextLit("b".into()), Expr::Var("y".into())),
        (Expr::Var("z".into()), Expr::IntLit(3)),
    ]);
    assert_eq!(check_initializer(&d, &globals, &reg), Err("unknown variable `y`".to_string()));
}

#[test]
fn a_type_naming_no_record_is_caught() {
    let mut reg = Registry::new();
    reg.insert_record(RecordDef { name: "Point".into(), fields: vec![], is_c: false, line: 0 });
    assert_eq!(undeclared_type(Ty::Array(Elem::Record(intern("Nope"))), &reg), Some("Nope"));
    assert_eq!(undeclared_type(Ty::Dict(Elem::Record(intern("Point"))), &reg), None);
    assert_eq!(undeclared_type(Ty::Record(intern("Point")), &reg), None);
    assert_eq!(undeclared_type(Ty::Int, &reg), None);
}

// --- records, places and components ------------------------------------------

#[test]
fn a_field_reads_as_its_surface_type() {
    let mut reg = Registry::new();
    reg.insert_record(RecordDef {
        name: "Px".into(),
        fields: vec![("r".into(), Ty::Byte), ("w".into(), Ty::Float), ("name".into(), Ty::Text)],
        is_c: true,
        line: 0,
    });
    assert_eq!(field_type("Px", "r", &reg).unwrap(), Ty::Int);
    assert_eq!(field_type("Px", "w", &reg).unwrap(), Ty::Double);
    assert_eq!(field_type("Px", "name", &reg).unwrap(), Ty::Text);
    assert_eq!(field_type("Px", "g", &reg).unwrap_err().msg, "record `Px` has no field `g` (has: r, w, name)");
    assert_eq!(field_type("Py", "r", &reg).unwrap_err().msg, "unknown record `Py`");
}

#[test]
fn places_are_variables_properties_and_literal_paths() {
    let v = || Box::new(Expr::Var("r".into()));
    assert!(is_place(&Expr::Var("r".into())));
    assert!(is_place(&Expr::Field { base: v(), name: "x".into() }));
    assert!(is_place(&Expr::Index { base: v(), index: Box::new(Expr::IntLit(2)) }));
    assert!(!is_place(&Expr::Index { base: v(), index: Box::new(Expr::Var("i".into())) }));
    assert!(!is_place(&Expr::Call { cmd: "f".into(), args: vec![] }));
}

#[test]
fn component_ids_map_to_their_last_declared_type() {
    let m = parse(
        "module m\nuse ui\nform win\n  button ok\n    text = \"Go\"\n  end\n  label note\n    text = \"Hi\"\n  end\nend\ntimer ok\n  interval = 5\nend\nsub main\nend\n",
    )
    .unwrap();
    let t = component_types(&m);
    assert_eq!(t.len(), 2);
    assert!(t.contains(&("ok".to_string(), "timer".to_string())));
    assert!(t.contains(&("note".to_string(), "label".to_string())));
}

#[test]
fn doubled_braces_become_single_and_lone_ones_stay() {
    assert_eq!(unescape_braces("a{{b}}c{d}}"), "a{b}c{d}");
    assert_eq!(unescape_braces("{{{"), "{{");
    assert_eq!(unescape_braces("{}"), "{}");
    assert_eq!(unescape_braces("ünï{{cödé}}"), "ünï{cödé}");
}

#[test]
fn rows_at_one_address_keep_the_order_they_were_read_in() {
    let p = Program::new(
        "m.oir".into(),
        ".".into(),
        vec![row(0x10, 5, true, false), row(0x10, 6, true, false), row(0x8, 1, true, false), row(0x10, 9, false, true)],
        vec![],
    );
    let lines: Vec<u32> = p.rows().iter().map(|r| r.line).collect();
    assert_eq!(lines, vec![1, 5, 6, 9]);
}

#[test]
fn a_body_with_no_defer_keeps_its_structure() {
    let body = body_of(
        "module m\nsub main\n  let x: int = 1\n  while x < 3\n    if x = 2\n      break\n    end\n    x = x + 1\n  end\n  return\nend\n",
    );
    let out = expand_defer(&body, None);
    assert_eq!(out, body);
}
