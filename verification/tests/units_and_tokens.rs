use openepl::dwarf::{LineEntry, SymbolEntry};
use openepl::lexer::{lex, Spanned, Tok};
use openepl::symbols::{program_from_units, LoadError, UnitLines};

fn entry(address: u64, line: u64) -> LineEntry {
    LineEntry { address, line: Some(line), column: Some(1), is_stmt: true, end_sequence: false }
}

fn unit(producer: &str, name: &str, entries: Vec<LineEntry>) -> UnitLines {
    UnitLines {
        producer: producer.as_bytes().to_vec(),
        name: Some(name.as_bytes().to_vec()),
        comp_dir: Some(b"/work".to_vec()),
        entries,
    }
}

#[test]
fn only_this_compilers_units_give_rows() {
    let units = vec![
        unit("GNU C 12", "crt.c", vec![entry(0x10, 3)]),
        unit("OpenEPL 0.1", "main.oe", vec![entry(0x40, 7), entry(0x48, 8)]),
        unit("clang", "lib.c", vec![entry(0x80, 9)]),
    ];
    let syms = vec![SymbolEntry { is_text: true, name: Some("oe_user_main".into()), address: 0x40, size: 16 }];
    let p = program_from_units(units, syms).unwrap();
    let addrs: Vec<u64> = p.rows().iter().map(|r| r.address).collect();
    assert_eq!(addrs, vec![0x40, 0x48]);
    assert_eq!(p.source, "main.oe");
    assert_eq!(p.directory, "/work");
}

#[test]
fn the_source_comes_from_the_first_unit_of_ours() {
    let units = vec![
        unit("OpenEPL 0.1", "first.oe", vec![entry(0x40, 1)]),
        unit("OpenEPL 0.1", "second.oe", vec![entry(0x50, 1)]),
    ];
    let p = program_from_units(units, vec![]).unwrap();
    assert_eq!(p.source, "first.oe");
    assert_eq!(p.rows().len(), 2);
}

#[test]
fn no_unit_of_ours_means_no_debug_info() {
    let units = vec![unit("GNU C 12", "crt.c", vec![entry(0x10, 3)])];
    assert!(matches!(program_from_units(units, vec![]), Err(LoadError::NoDebugInfo)));
    assert!(matches!(program_from_units(vec![], vec![]), Err(LoadError::NoDebugInfo)));
}

#[test]
fn tokens_carry_the_place_they_were_read_from() {
    let v = lex("let s = \"ab\"").unwrap();
    assert_eq!(v[0], Spanned { tok: Tok::Let, line: 1, col: 1, end_col: 4 });
    assert_eq!(v[3], Spanned { tok: Tok::Str("ab".into()), line: 1, col: 9, end_col: 13 });
    let w = lex("a\n\n\nb").unwrap();
    let got: Vec<(Tok, usize, usize, usize)> = w.into_iter().map(|t| (t.tok, t.line, t.col, t.end_col)).collect();
    assert_eq!(
        got,
        vec![
            (Tok::Ident("a".into()), 1, 1, 2),
            (Tok::Newline, 1, 2, 3),
            (Tok::Ident("b".into()), 4, 1, 2),
            (Tok::Eof, 4, 2, 2),
        ]
    );
}

fn kinds(s: &str) -> Vec<Tok> {
    lex(s).unwrap().into_iter().map(|t| t.tok).collect()
}

#[test]
fn bit_patterns_lex_to_their_values() {
    assert_eq!(kinds("0xFF"), vec![Tok::Bits(255), Tok::Eof]);
    assert_eq!(kinds("0b1010"), vec![Tok::Bits(10), Tok::Eof]);
    assert_eq!(kinds("0xDEAD_BEEF"), vec![Tok::Bits(0xDEAD_BEEF), Tok::Eof]);
    assert!(lex("0x").unwrap_err().msg.contains("has no digits after it"));
    assert!(lex("0x1_0000_0000_0000_0000").unwrap_err().msg.contains("needs more than 64 bits"));
    assert!(lex("0b102").unwrap_err().msg.contains("not a binary digit"));
}

#[test]
fn operators_and_words_lex_as_written() {
    assert_eq!(kinds("bnot band shl"), vec![Tok::BNot, Tok::Ident("band".into()), Tok::Ident("shl".into()), Tok::Eof]);
    assert_eq!(kinds("x &= y"), vec![Tok::Ident("x".into()), Tok::AmpEq, Tok::Ident("y".into()), Tok::Eof]);
    assert_eq!(kinds("a..b"), vec![Tok::Ident("a".into()), Tok::DotDot, Tok::Ident("b".into()), Tok::Eof]);
    assert!(lex("a & b").unwrap_err().msg.contains("unexpected character"));
}

#[test]
fn numbers_and_texts_keep_what_they_spell() {
    assert_eq!(kinds("1_000 2.5"), vec![Tok::Int(1000), Tok::Float("2.5".into()), Tok::Eof]);
    assert_eq!(kinds("\"a\\tb\""), vec![Tok::Str("a\tb".into()), Tok::Eof]);
    assert_eq!(kinds("r\"a\\tb\""), vec![Tok::RawStr("a\\tb".into()), Tok::Eof]);
    assert!(lex("\"ab").unwrap_err().msg.contains("unterminated string literal"));
    assert!(lex("99999999999999999999").unwrap_err().msg.contains("out of range"));
}

#[test]
fn comments_and_blank_space_give_no_tokens() {
    let v = lex("a\t# note\r\n   # more\n\nb # end").unwrap();
    let got: Vec<(Tok, usize, usize)> = v.into_iter().map(|t| (t.tok, t.line, t.col)).collect();
    assert_eq!(
        got,
        vec![
            (Tok::Ident("a".into()), 1, 1),
            (Tok::Newline, 1, 10),
            (Tok::Ident("b".into()), 4, 1),
            (Tok::Eof, 4, 8),
        ]
    );
}

#[test]
fn a_block_literal_spans_its_lines() {
    let v = lex("x = \"\"\"\na\nb\"\"\" y").unwrap();
    assert_eq!(v[2].tok, Tok::Str("a\nb".into()));
    assert_eq!((v[2].line, v[2].col), (1, 5));
    assert_eq!((v[3].tok.clone(), v[3].line, v[3].col), (Tok::Ident("y".into()), 3, 6));
}

#[test]
fn a_lexical_error_names_the_line_it_stops_on() {
    let e = lex("a\n# note\n  b $").unwrap_err();
    assert_eq!(e.line, 3);
    assert!(e.msg.contains("unexpected character"));
    let e = lex("x = \"\"\"\nnever closed").unwrap_err();
    assert_eq!(e.line, 1);
    assert!(e.msg.contains("unterminated block literal"));
}

#[test]
fn lexical_errors_say_what_is_wrong() {
    let msg = |s: &str| lex(s).unwrap_err().msg;
    assert_eq!(msg("\"abc"), "unterminated string literal");
    assert_eq!(msg("\"ab\ncd\""), "newline in string literal");
    assert_eq!(msg("\"\\q\""), "unknown escape: \\q");
    assert_eq!(msg("\"\\"), "unterminated escape");
    assert_eq!(msg("0x"), "`0x` has no digits after it");
    assert_eq!(msg("0b102"), "`2` is not a binary digit in `0b102`");
    assert_eq!(msg("0x1_0000_0000_0000_0000"), "the literal `0x1_0000_0000_0000_0000` needs more than 64 bits");
    assert_eq!(msg("1__0"), "an underscore in a number must sit between two digits");
    assert_eq!(msg("99999999999999999999"), "integer literal out of range: 99999999999999999999");
    assert_eq!(msg("a & b"), "unexpected character: '&'");
    assert_eq!(msg("r\"ab"), "unterminated string literal");
}

#[test]
fn nothing_inside_a_comment_is_read() {
    assert_eq!(kinds("# a b 1\n"), vec![Tok::Eof]);
    assert_eq!(kinds("x # y\nz"), vec![Tok::Ident("x".into()), Tok::Newline, Tok::Ident("z".into()), Tok::Eof]);
}
