use openepl::symbols::{Program, Row, Subprogram};

/// A table shaped like a real one: two statements, a non-statement row in
/// the middle of the second, and the end marker.
fn program() -> Program {
    Program {
        source: "demo.oir".into(),
        directory: "examples".into(),
        rows: vec![
            Row { address: 0x1000, line: 3, column: 3, is_stmt: true, end_sequence: false },
            Row { address: 0x1010, line: 5, column: 3, is_stmt: true, end_sequence: false },
            Row { address: 0x1018, line: 5, column: 9, is_stmt: false, end_sequence: false },
            Row { address: 0x1020, line: 7, column: 3, is_stmt: true, end_sequence: false },
            Row { address: 0x1030, line: 0, column: 0, is_stmt: false, end_sequence: true },
        ],
        subs: vec![Subprogram {
            name: "main".into(),
            symbol: "oe_user_main".into(),
            low_pc: 0x1000,
            size: 0x30,
        }],
    }
}

#[test]
fn an_address_belongs_to_the_row_that_starts_at_or_before_it() {
    let p = program();
    assert_eq!(p.line_for(0x1000).unwrap().line, 3);
    assert_eq!(p.line_for(0x1008).unwrap().line, 3);
    assert_eq!(p.line_for(0x1010).unwrap().line, 5);
    assert_eq!(p.line_for(0x101c).unwrap().line, 5);
    assert_eq!(p.line_for(0x1020).unwrap().line, 7);
}

#[test]
fn an_address_outside_the_table_has_no_line() {
    let p = program();
    assert!(p.line_for(0x900).is_none());
    assert!(p.line_for(0x1030).is_none());
    assert!(p.line_for(0x2000).is_none());
}

#[test]
fn a_breakpoint_goes_on_a_statement_boundary() {
    let p = program();
    assert_eq!(p.breakpoint_for(5).unwrap().address, 0x1010);
    assert_eq!(p.breakpoint_for(5).unwrap().column, 3);
}

#[test]
fn a_line_that_runs_nothing_moves_to_the_next_one_that_does() {
    let p = program();
    assert_eq!(p.breakpoint_for(4).unwrap().line, 5);
    assert_eq!(p.breakpoint_for(6).unwrap().line, 7);
    assert!(p.breakpoint_for(8).is_none());
}

#[test]
fn a_line_reports_every_address_it_begins_at() {
    let p = program();
    assert_eq!(p.addresses_for(5), vec![0x1010]);
    assert_eq!(p.addresses_for(4), Vec::<u64>::new());
}

#[test]
fn a_subprogram_owns_its_addresses_and_not_the_one_past_its_end() {
    let p = program();
    assert_eq!(p.subprogram_for(0x1000).unwrap().name, "main");
    assert_eq!(p.subprogram_for(0x102f).unwrap().name, "main");
    assert!(p.subprogram_for(0x1030).is_none());
    assert!(p.subprogram_for(0xfff).is_none());
}

#[test]
fn an_end_marker_at_a_rows_address_ends_that_row() {
    let p = Program::new(
        "demo.oir".into(),
        "examples".into(),
        vec![
            Row { address: 0x100, line: 0, column: 0, is_stmt: false, end_sequence: true },
            Row { address: 0x100, line: 5, column: 1, is_stmt: true, end_sequence: false },
        ],
        vec![],
    );
    assert!(p.line_for(0x104).is_none());
    assert!(p.line_for(0xff).is_none());
}
