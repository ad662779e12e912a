use openepl::parser::parse;
use openepl::registry::Registry;
use openepl::types::{carray, BinOp, BitOp, CallConv, CmpOp, Elem, Expr, Item, Stmt, StmtKind, Ty};
#[test]
fn parses_hello() {
    let src = "module m\nsub main\n  let x: int = 6 * 7\n  call print_int(x)\nend\n";
    let m = parse(src).unwrap();
    assert_eq!(m.name, "m");
    assert_eq!(m.subs().len(), 1);
}

#[test]
fn parses_form_with_component_and_binding() {
    let src = "module m\nuse ui\nform win\n  title = \"Hi\"\n  width = 320\n  button ok\n    text = \"Go\"\n    on click: handler\n  end\nend\nsub handler\n  call print_text(\"hi\")\nend\n";
    let m = parse(src).unwrap();
    assert_eq!(m.uses, vec!["ui"]);
    let f = m.forms().into_iter().next().expect("a form");
    assert_eq!(f.name, "win");
    assert_eq!(f.properties.len(), 2);
    assert_eq!(f.children.len(), 1);
    let c = &f.children[0];
    assert_eq!((c.component_type.as_str(), c.id.as_str()), ("button", "ok"));
    assert_eq!(
        c.handlers,
        vec![("click".to_string(), "handler".to_string())]
    );
    assert!(m.is_gui());
}

#[test]
fn parses_parameters_and_a_return_type() {
    let m = parse("module m\nsub add(a: int, b: text): double\n  return 1.0\nend\n").unwrap();
    let s = m.subs().into_iter().next().unwrap();
    assert_eq!(
        s.params,
        vec![("a".into(), Ty::Int), ("b".into(), Ty::Text)]
    );
    assert_eq!(s.ret, Some(Ty::Double));
    assert_eq!(s.line, 2);
}

/// The old shape must keep parsing untouched: an entry point and an event
/// handler are subs with no parameters and no return type.
#[test]
fn a_bare_sub_is_still_a_sub() {
    for src in [
        "module m\nsub main\n  call print_int(1)\nend\n",
        "module m\nsub main()\n  call print_int(1)\nend\n",
    ] {
        let m = parse(src).unwrap();
        let s = m.subs().into_iter().next().unwrap();
        assert!(s.is_plain(), "{src}");
        assert_eq!(s.signature().params.len(), 0);
    }
}

#[test]
fn parses_return_with_and_without_a_value() {
    let m = parse("module m\nsub main\n  if true\n    return\n  end\n  return\nend\n")
        .unwrap();
    let s = m.subs().into_iter().next().unwrap();
    assert!(matches!(
        s.body.last().unwrap().kind,
        StmtKind::Return { value: None }
    ));
    // The `return` nested inside the `if` must be reached too — the body
    // loop and the block loop are separate code paths.
    let StmtKind::If { arms, .. } = &s.body[0].kind else {
        panic!("expected an if")
    };
    assert!(matches!(
        arms[0].1[0].kind,
        StmtKind::Return { value: None }
    ));
}

#[test]
fn parses_address_of_a_sub() {
    let m = parse(
        "module m\nsub h(a: int): int\n  return a\nend\nsub main\n  var p: ptr = address of h\nend\n",
    )
    .unwrap();
    let main = m.subs().into_iter().find(|s| s.name == "main").unwrap();
    let StmtKind::Let { value, ty, .. } = &main.body[0].kind else {
        panic!("expected a let");
    };
    assert_eq!(*ty, Ty::Ptr);
    assert_eq!(*value, Expr::AddressOf("h".to_string()));
}

#[test]
fn parses_a_calling_convention_on_a_dll() {
    // After `from`, and after an `as`, and each of the three markers.
    let m = parse(
        "module m\n\
         dll a(): int from \"x\" system\n\
         dll b(): int from \"x\" as \"bb\" stdcall\n\
         dll c(): int from \"x\" cdecl\n\
         dll d(): int from \"x\"\n",
    )
    .unwrap();
    let convs: Vec<Option<CallConv>> = m.dlls().into_iter().map(|d| d.conv).collect();
    assert_eq!(
        convs,
        vec![
            Some(CallConv::System),
            Some(CallConv::Stdcall),
            Some(CallConv::Cdecl),
            None
        ]
    );
}

#[test]
fn parses_a_calling_convention_on_a_sub() {
    // A bare sub, a sub with a return type, and one with neither marker.
    let m = parse(
        "module m\n\
         sub bare system\nend\n\
         sub shaped(a: int): int64 stdcall\n  return 0\nend\n\
         sub plain\nend\n",
    )
    .unwrap();
    assert_eq!(
        m.subs().into_iter().find(|s| s.name == "bare").unwrap().conv,
        Some(CallConv::System)
    );
    assert_eq!(
        m.subs().into_iter().find(|s| s.name == "shaped").unwrap().conv,
        Some(CallConv::Stdcall)
    );
    assert_eq!(m.subs().into_iter().find(|s| s.name == "plain").unwrap().conv, None);
}

/// The three words are only conventions in the trailing position. Anywhere
/// else — a variable, a parameter name — they stay ordinary identifiers.
#[test]
fn a_convention_word_is_a_soft_keyword() {
    let m =
        parse("module m\nsub main\n  var system: int = 1\n  system = system + 1\nend\n").unwrap();
    let main = m.subs().into_iter().next().unwrap();
    assert!(matches!(main.body[0].kind, StmtKind::Let { .. }));
    assert!(matches!(main.body[1].kind, StmtKind::Assign { .. }));
    assert_eq!(main.conv, None);
}

/// `call through <ptr>(args): T` parses in both positions, and the shape it
/// carries is the callee, the arguments and the site's declared return.
#[test]
fn parses_call_through_as_a_value_and_as_a_statement() {
    let m = parse(
        "module m\nsub main\n  var fp: ptr = ptr_null()\n  \
         let n: int = call through fp(10, 20): int\n  call through fp(1)\nend\n",
    )
    .unwrap();
    let s = m.subs().into_iter().next().unwrap();
    let StmtKind::Let { value, .. } = &s.body[1].kind else {
        panic!("expected a let")
    };
    let Expr::CallThrough { callee, args, ret, conv } = value else {
        panic!("expected a call through, got {value:?}")
    };
    assert_eq!(**callee, Expr::Var("fp".to_string()));
    assert_eq!(args.len(), 2);
    assert_eq!(*ret, Some(Ty::Int));
    assert_eq!(*conv, None);

    let StmtKind::CallThrough { ret, args, .. } = &s.body[2].kind else {
        panic!("expected a call-through statement, got {:?}", s.body[2].kind)
    };
    // No `: type` on the statement: a C `void` call.
    assert_eq!(*ret, None);
    assert_eq!(args.len(), 1);
}

/// A callee in parentheses is any expression — the vtable read a COM call
/// is made of — and a trailing convention marker is accepted as on a `dll`.
#[test]
fn parses_a_parenthesised_callee_and_a_convention() {
    let m = parse(
        "module m\nsub main\n  var t: ptr = ptr_null()\n  \
         call through (ptr_read_ptr(t, 0))(t) system\nend\n",
    )
    .unwrap();
    let s = m.subs().into_iter().next().unwrap();
    let StmtKind::CallThrough { callee, conv, .. } = &s.body[1].kind else {
        panic!("expected a call-through statement")
    };
    assert!(matches!(callee, Expr::Call { cmd, .. } if cmd == "ptr_read_ptr"));
    assert_eq!(*conv, Some(CallConv::System));
}

/// `through` means something only straight after `call`; everywhere else it
/// is an ordinary identifier.
#[test]
fn through_is_a_soft_keyword() {
    let m = parse("module m\nsub main\n  var through: int = 1\n  through = through + 1\nend\n")
        .expect("`through` must stay a usable name");
    assert_eq!(m.subs().into_iter().next().unwrap().body.len(), 2);
}

/// `address` is only special before `of`: on its own it is an ordinary name,
/// so a variable called `address` still reads and writes.
#[test]
fn address_is_a_soft_keyword() {
    let m = parse("module m\nsub main\n  var address: int = 1\n  address = address + 1\nend\n")
        .unwrap();
    let main = m.subs().into_iter().next().unwrap();
    assert!(matches!(main.body[0].kind, StmtKind::Let { .. }));
    assert!(matches!(main.body[1].kind, StmtKind::Assign { .. }));
}

#[test]
fn folds_a_negative_literal_into_the_literal() {
    // `-5` must BE the literal -5, not a negation of 5: only then does it
    // type `int` at the extremes and stay usable as a form property.
    let m = parse("module m\nsub main\n  let x: int = -2147483648\nend\n").unwrap();
    let s = m.subs().into_iter().next().unwrap();
    assert!(matches!(
        s.body[0].kind,
        StmtKind::Let {
            value: Expr::IntLit(-2147483648),
            ..
        }
    ));
}

#[test]
fn negates_a_non_literal() {
    let m = parse("module m\nsub main\n  let x: int = 1\n  let y: int = -x\nend\n").unwrap();
    let s = m.subs().into_iter().next().unwrap();
    assert!(matches!(
        s.body[1].kind,
        StmtKind::Let {
            value: Expr::Neg(_),
            ..
        }
    ));
}

/// Unary minus binds tighter than `*`: `-2 * 3` is `(-2) * 3`, which is
/// -6 either way, but `-a * b` and `-(a * b)` differ in the general case
/// only by association — what must not happen is the `-` swallowing the
/// multiplication's right operand.
#[test]
fn unary_minus_binds_tighter_than_multiplication() {
    let m = parse("module m\nsub main\n  let x: int = -2 * 3\nend\n").unwrap();
    let s = m.subs().into_iter().next().unwrap();
    let StmtKind::Let { value, .. } = &s.body[0].kind else {
        panic!()
    };
    assert_eq!(
        *value,
        Expr::Bin(
            BinOp::Mul,
            Box::new(Expr::IntLit(-2)),
            Box::new(Expr::IntLit(3))
        )
    );
}

#[test]
fn parses_remainder() {
    let m = parse("module m\nsub main\n  let x: int = 7 % 2\nend\n").unwrap();
    let s = m.subs().into_iter().next().unwrap();
    let StmtKind::Let { value, .. } = &s.body[0].kind else {
        panic!()
    };
    assert!(matches!(value, Expr::Bin(BinOp::Rem, _, _)));
}

#[test]
fn parses_for_with_and_without_a_step() {
    let m = parse("module m\nsub main\n  for i = 1 to 10\n  end\n  for j = 9 to 0 step -3\n  end\nend\n").unwrap();
    let s = m.subs().into_iter().next().unwrap();
    let StmtKind::For { var, step, .. } = &s.body[0].kind else {
        panic!("expected a for")
    };
    assert_eq!((var.as_str(), *step), ("i", 1));
    let StmtKind::For { var, step, .. } = &s.body[1].kind else {
        panic!("expected a for")
    };
    assert_eq!((var.as_str(), *step), ("j", -3));
}

/// `break` and `continue` must be reachable from BOTH statement loops —
/// the one inside `sub` and the one inside `block` — which are separate
/// code paths that each enumerate statement heads.
#[test]
fn parses_break_and_continue_in_both_statement_loops() {
    let m = parse(
        "module m\nsub main\n  break\n  while true\n    continue\n  end\nend\n",
    )
    .unwrap();
    let s = m.subs().into_iter().next().unwrap();
    assert!(matches!(s.body[0].kind, StmtKind::Break));
    let StmtKind::While { body, .. } = &s.body[1].kind else {
        panic!()
    };
    assert!(matches!(body[0].kind, StmtKind::Continue));
}

/// `to` and `step` are soft keywords: they must stay usable as ordinary
/// names everywhere else, or adding `for` would break existing files.
#[test]
fn to_and_step_are_still_ordinary_names() {
    let m = parse("module m\nsub main\n  var to: int = 1\n  var step: int = 2\n  to = step\nend\n").unwrap();
    assert_eq!(m.subs().into_iter().next().unwrap().body.len(), 3);
}

#[test]
fn parses_an_array_type_and_an_index() {
    let m = parse(
        "module m\nsub f(xs: text[]): int\n  let a: int = xs[0 + 1]\n  return a\nend\n",
    )
    .unwrap();
    let s = m.subs().into_iter().next().unwrap();
    assert_eq!(s.params, vec![("xs".into(), Ty::Array(Elem::Text))]);
    let StmtKind::Let { value, .. } = &s.body[0].kind else {
        panic!("expected a let")
    };
    assert!(matches!(value, Expr::Index { .. }));
}

/// Indexing binds tighter than any operator: `xs[0] + 1` adds to the
/// element, and folding it the other way would index the sum.
#[test]
fn indexing_binds_tighter_than_addition() {
    let m = parse("module m\nsub main\n  var xs: int[] = [1]\n  let a: int = xs[0] + 1\nend\n")
        .unwrap();
    let s = m.subs().into_iter().next().unwrap();
    let StmtKind::Let { value, .. } = &s.body[1].kind else {
        panic!()
    };
    let Expr::Bin(BinOp::Add, l, _) = value else {
        panic!("expected an addition, got {value:?}")
    };
    assert!(matches!(**l, Expr::Index { .. }));
}

#[test]
fn parses_an_element_assignment() {
    let m =
        parse("module m\nsub main\n  var xs: int[] = [1]\n  xs[0] = 2\nend\n").unwrap();
    let s = m.subs().into_iter().next().unwrap();
    assert!(matches!(s.body[1].kind, StmtKind::SetIndex { .. }));
}

// --- 0.8.0 assignment and operator shorthands ---------------------------

fn first_body(src: &str) -> Vec<Stmt> {
    let m = parse(src).unwrap();
    for item in m.items {
        if let Item::Sub(s) = item {
            return s.body;
        }
    }
    panic!("expected a subroutine")
}

#[test]
fn compound_assignment_desugars_to_the_plain_assignment() {
    let b = first_body("module m\nsub main\n  var x: int = 0\n  x += 2\nend\n");
    match &b[1].kind {
        StmtKind::Assign { name, value } => {
            assert_eq!(name, "x");
            // `x += 2` is exactly `x = x + 2`.
            assert_eq!(
                *value,
                Expr::Bin(
                    BinOp::Add,
                    Box::new(Expr::Var("x".into())),
                    Box::new(Expr::IntLit(2))
                )
            );
        }
        other => panic!("expected Assign, got {other:?}"),
    }
}

#[test]
fn mod_assign_and_amp_assign_desugar() {
    let b = first_body(
        "module m\nsub main\n  var x: int = 9\n  x mod= 4\n  var s: text = \"a\"\n  s &= \"b\"\nend\n",
    );
    assert!(matches!(
        &b[1].kind,
        StmtKind::Assign { value: Expr::Bin(BinOp::Rem, ..), .. }
    ));
    // `s &= "b"` is `s = concat(s, "b")`.
    match &b[3].kind {
        StmtKind::Assign { value: Expr::Call { cmd, args }, .. } => {
            assert_eq!(cmd, "concat");
            assert_eq!(args.len(), 2);
        }
        other => panic!("expected concat call, got {other:?}"),
    }
}

#[test]
fn compound_assignment_reaches_a_property_and_a_path() {
    let b = first_body(
        "module m\nsub main\n  label1.text &= \"!\"\n  r.pt.x += 1\nend\n",
    );
    assert!(matches!(&b[0].kind, StmtKind::SetProperty { .. }));
    assert!(matches!(&b[1].kind, StmtKind::SetPlace { .. }));
}

#[test]
fn increment_and_decrement_desugar_and_stay_soft_keywords() {
    let b = first_body(
        "module m\nsub main\n  var n: int = 0\n  increment n\n  decrement n\nend\n",
    );
    assert!(matches!(
        &b[1].kind,
        StmtKind::Assign { value: Expr::Bin(BinOp::Add, ..), .. }
    ));
    assert!(matches!(
        &b[2].kind,
        StmtKind::Assign { value: Expr::Bin(BinOp::Sub, ..), .. }
    ));
    // `increment` is a soft keyword: assigning to a variable named
    // `increment` still works, because there `=` follows the name.
    let b = first_body("module m\nsub main\n  var increment: int = 0\n  increment = 5\nend\n");
    assert!(matches!(&b[1].kind, StmtKind::Assign { name, .. } if name == "increment"));
}

#[test]
fn a_chained_comparison_is_a_chain() {
    let b = first_body("module m\nsub main\n  var x: int = 5\n  if 1 <= x <= 12\n    return\n  end\nend\n");
    let StmtKind::If { arms, .. } = &b[1].kind else { panic!() };
    assert!(matches!(arms[0].0, Expr::Chain { .. }));
    // Three comparisons in a row still have no single reading.
    assert!(parse("module m\nsub main\n  if 1 < 2 < 3 < 4\n    return\n  end\nend\n").is_err());
}

#[test]
fn membership_parses_and_in_stays_a_name() {
    let b = first_body("module m\nsub main\n  var xs: int[] = [1]\n  if 1 in xs\n    return\n  end\nend\n");
    let StmtKind::If { arms, .. } = &b[1].kind else { panic!() };
    assert!(matches!(arms[0].0, Expr::In { negated: false, .. }));
    let b = first_body("module m\nsub main\n  var xs: int[] = [1]\n  if 9 not in xs\n    return\n  end\nend\n");
    let StmtKind::If { arms, .. } = &b[1].kind else { panic!() };
    assert!(matches!(arms[0].0, Expr::In { negated: true, .. }));
    // `in` is a soft keyword: a variable named `in` still parses.
    assert!(parse("module m\nsub main\n  var in: int = 3\n  call print_int(in)\nend\n").is_ok());
}

#[test]
fn one_line_if_wraps_the_statement() {
    let b = first_body("module m\nsub main\n  call print_int(1) if true\nend\n");
    let StmtKind::If { arms, otherwise } = &b[0].kind else {
        panic!("expected the suffix to become an if")
    };
    assert!(otherwise.is_none());
    assert_eq!(arms.len(), 1);
    assert!(matches!(arms[0].1[0].kind, StmtKind::Call { .. }));
    // `return if COND` reads the `if` as the suffix, not the return value.
    let b = first_body("module m\nsub f(): int\n  return if false\n  return 1\nend\n");
    assert!(matches!(&b[0].kind, StmtKind::If { .. }));
}

/// `xs[a]` and `xs[a..b]` are told apart by the `..`, and either bound may
/// be left out. The index form must be untouched — it is the one every
/// existing program uses.
#[test]
fn a_range_in_brackets_parses_as_a_slice() {
    let b = first_body(
        "module m\nsub main\n  let s: text = \"abcdef\"\n  call print_text(s[2..4])\n  call print_text(s[3..])\n  call print_text(s[..3])\n  call print_text(s[..])\nend\n",
    );
    let cases: Vec<(bool, bool)> = b[1..5]
        .iter()
        .map(|st| {
            let StmtKind::Call { args, .. } = &st.kind else {
                panic!("expected a call")
            };
            let Expr::Slice { from, to, .. } = &args[0] else {
                panic!("expected a slice, got {:?}", args[0])
            };
            (from.is_some(), to.is_some())
        })
        .collect();
    assert_eq!(cases, vec![(true, true), (true, false), (false, true), (false, false)]);
    // No `..`: still the plain index it always was.
    let b = first_body("module m\nsub main\n  var xs: int[] = [1]\n  call print_int(xs[1])\nend\n");
    let StmtKind::Call { args, .. } = &b[1].kind else { panic!() };
    assert!(matches!(args[0], Expr::Index { .. }));
    // A slice is a value, not a place.
    assert!(parse("module m\nsub main\n  var xs: int[] = [1]\n  xs[1..2] = [2]\nend\n").is_err());
}

/// A block literal carries its newlines and still splits into its holes; a
/// raw literal is its own bytes, so it is one `TextLit` however many braces
/// and backslashes are in it.
#[test]
fn block_and_raw_literals_lex_and_desugar() {
    let b = first_body("module m\nsub main\n  let s: text = \"\"\"\na\nb\"\"\"\nend\n");
    let StmtKind::Let { value: Expr::TextLit(t), .. } = &b[0].kind else {
        panic!("expected a text literal, got {:?}", b[0].kind)
    };
    // The one newline after the opening delimiter is dropped; the rest is
    // the literal's own.
    assert_eq!(t, "a\nb");
    // A hole in a block still becomes the concat chain.
    let b = first_body("module m\nsub main\n  let n: int = 1\n  let s: text = \"\"\"x{n}\"\"\"\nend\n");
    let StmtKind::Let { value, .. } = &b[1].kind else { panic!() };
    assert!(matches!(value, Expr::Call { cmd, .. } if cmd == "concat"), "{value:?}");
    // Raw: no escapes, no holes, one literal.
    let b = first_body("module m\nsub main\n  let s: text = r\"a\\nb{c}\"\nend\n");
    let StmtKind::Let { value: Expr::TextLit(t), .. } = &b[0].kind else {
        panic!("expected one raw text literal, got {:?}", b[0].kind)
    };
    assert_eq!(t, "a\\nb{c}");
    // `r` is a prefix, not a keyword.
    assert!(parse("module m\nsub main\n  var r: int = 1\n  call print_int(r)\nend\n").is_ok());
    // A newline in a one-line literal is still refused.
    assert!(parse("module m\nsub main\n  let s: text = \"a\nb\"\nend\n").is_err());
}

#[test]
fn decimal_underscores_and_trailing_commas_parse() {
    let b = first_body("module m\nsub main\n  var x: int = 1_000_000\n  var xs: int[] = [1, 2,]\n  call print_int(count(xs),)\nend\n");
    assert!(matches!(&b[0].kind, StmtKind::Let { value: Expr::IntLit(1_000_000), .. }));
    // `1_.5`, `1__0`, `5_` are all rejected by the lexer.
    assert!(parse("module m\nsub main\n  var x: int = 1__0\nend\n").is_err());
    assert!(parse("module m\nsub main\n  var x: int = 5_\nend\n").is_err());
}

#[test]
fn parses_a_record_declaration_and_a_construction() {
    let m = parse(
        "module m\nrecord point\n  x: int\n  y: text\nend\n\
         sub main\n  let p: point = point(x: 1, y: \"a\")\nend\n",
    )
    .unwrap();
    let r = m.records().into_iter().next().expect("a record");
    assert_eq!(r.name, "point");
    assert_eq!(r.fields, vec![("x".into(), Ty::Int), ("y".into(), Ty::Text)]);
    assert_eq!(r.field("y"), Some((2, Ty::Text)));
    let s = m.subs().into_iter().next().unwrap();
    let StmtKind::Let { ty, value, .. } = &s.body[0].kind else {
        panic!("expected a let")
    };
    assert_eq!(*ty, Ty::Record("point"));
    assert!(matches!(value, Expr::RecordLit { .. }), "{value:?}");
}

/// `record` stays an ordinary word everywhere except that one position, or
/// adding records would break files that already use it as a name.
#[test]
fn record_is_a_soft_keyword() {
    let m = parse("module m\nsub main\n  var record: int = 1\n  record = 2\nend\n").unwrap();
    assert_eq!(m.subs().into_iter().next().unwrap().body.len(), 2);
}

/// `point(1, 2)` is a call and `point(x: 1)` is a record: the named first
/// argument is the only difference, and two tokens of lookahead see it.
#[test]
fn a_named_first_argument_is_what_makes_it_a_record() {
    let m = parse("module m\nsub main\n  let a: int = f(1, 2)\n  let b: int = f(x: 1)\nend\n")
        .unwrap();
    let s = m.subs().into_iter().next().unwrap();
    let StmtKind::Let { value, .. } = &s.body[0].kind else { panic!() };
    assert!(matches!(value, Expr::Call { .. }), "{value:?}");
    let StmtKind::Let { value, .. } = &s.body[1].kind else { panic!() };
    assert!(matches!(value, Expr::RecordLit { .. }), "{value:?}");
}

/// A `.` further along a chain is a field read; the first one is left as a
/// property read for the validator to resolve.
#[test]
fn a_dot_after_an_index_is_a_field() {
    let m = parse("module m\nsub main\n  let n: int = ps[1].x\nend\n").unwrap();
    let s = m.subs().into_iter().next().unwrap();
    let StmtKind::Let { value, .. } = &s.body[0].kind else { panic!() };
    let Expr::Field { base, name } = value else {
        panic!("expected a field read, got {value:?}")
    };
    assert_eq!(name, "x");
    assert!(matches!(**base, Expr::Index { .. }));
}

#[test]
fn parses_a_dictionary_type_and_literal() {
    let m = parse(
        "module m\nsub main\n  var ages: int{} = {\"Ada\": 36}\n  ages[\"Alan\"] = 41\nend\n",
    )
    .unwrap();
    let s = m.subs().into_iter().next().unwrap();
    let StmtKind::Let { ty, value, .. } = &s.body[0].kind else { panic!() };
    assert_eq!(*ty, Ty::Dict(Elem::Int));
    assert!(matches!(value, Expr::DictLit(p) if p.len() == 1), "{value:?}");
    assert!(matches!(s.body[1].kind, StmtKind::SetIndex { .. }));
}

#[test]
fn parses_constants_and_types_them_by_their_literal() {
    let m = parse(
        "module m\nconst A = 42\nconst BIG = 5000000000\nconst NEG = -7\n             const PI = 3.5\nconst TAG = \"hi\"\nconst OK = true\nsub main\nend\n",
    )
    .unwrap();
    let cs: Vec<_> = m.consts().into_iter().collect();
    assert_eq!(cs.len(), 6, "six constants");
    assert_eq!(cs[0].ty, Ty::Int);
    assert!(matches!(cs[0].value, Expr::IntLit(42)));
    assert_eq!(cs[1].ty, Ty::Int64, "a value past i32 is int64");
    assert!(matches!(cs[2].value, Expr::IntLit(-7)), "a leading `-` folds into the number");
    assert_eq!(cs[3].ty, Ty::Double);
    assert_eq!(cs[4].ty, Ty::Text);
    assert_eq!(cs[5].ty, Ty::Bool);
}

#[test]
fn const_is_a_soft_keyword() {
    // `const` is only a declaration at module-item position; as a variable
    // name inside a sub it is an ordinary word.
    let m = parse("module m\nsub main\n  var const: int = 1\n  const = 2\nend\n").unwrap();
    assert!(m.consts().into_iter().next().is_none(), "no module constant here");
}

#[test]
fn precedence() {
    // 2 + 3 * 4 == 2 + (3*4)
    let m = parse("module m\nsub main\n  let x: int = 2 + 3 * 4\nend\n").unwrap();
    let Item::Sub(s) = &m.items[0] else {
        panic!("expected a subroutine")
    };
    match &s.body[0].kind {
        StmtKind::Let {
            value: Expr::Bin(BinOp::Add, _, r),
            ..
        } => {
            assert!(matches!(**r, Expr::Bin(BinOp::Mul, _, _)));
        }
        other => panic!("unexpected: {other:?}"),
    }
}

/// `record NAME is c` marks the record C-layout and lets a field be `byte`,
/// which is not a type keyword anywhere else.
/// The bitwise level of the table, checked by shape rather than by reading
/// the functions. The two that matter most: a comparison is looser than
/// every bitwise operator (so a flag test needs no parentheses), and a
/// shift is tighter than `band` but looser than `+`.
#[test]
fn bitwise_precedence() {
    let src = "module m\n\
               sub main\n\
                 let a: bool = f band m <> 0\n\
                 let b: int = 1 shl 4 band 255\n\
                 let c: int = 1 shl 2 + 2\n\
                 let d: int = 1 bor 6 band 4\n\
               end\n";
    let m = parse(src).unwrap();
    let Item::Sub(s) = &m.items[0] else { panic!() };
    let value = |i: usize| match &s.body[i].kind {
        StmtKind::Let { value, .. } => value,
        other => panic!("{other:?}"),
    };
    // `(f band m) <> 0`, not `f band (m <> 0)`.
    assert!(
        matches!(value(0), Expr::Cmp(CmpOp::Ne, l, _) if matches!(**l, Expr::Bit(BitOp::And, ..)))
    );
    // `(1 shl 4) band 255`.
    assert!(
        matches!(value(1), Expr::Bit(BitOp::And, l, _) if matches!(**l, Expr::Bit(BitOp::Shl, ..)))
    );
    // `1 shl (2 + 2)`.
    assert!(
        matches!(value(2), Expr::Bit(BitOp::Shl, _, r) if matches!(**r, Expr::Bin(BinOp::Add, ..)))
    );
    // `1 bor (6 band 4)`.
    assert!(
        matches!(value(3), Expr::Bit(BitOp::Or, _, r) if matches!(**r, Expr::Bit(BitOp::And, ..)))
    );
}

/// The infix operator words are soft keywords: they mean the operator only
/// where an operator can go, so a name is still a name. `bnot` is the one
/// that is reserved — see `Tok::BNot` for why a prefix operator cannot be
/// soft.
#[test]
fn the_infix_operator_words_are_soft_keywords() {
    let src = "module m\n\
               sub main\n\
                 let band: int = 1\n\
                 let shl: int = band\n\
                 let x: int = shl shl band\n\
               end\n";
    let m = parse(src).unwrap();
    let Item::Sub(s) = &m.items[0] else { panic!() };
    assert_eq!(s.body.len(), 3);
    assert!(
        matches!(&s.body[1].kind, StmtKind::Let { value: Expr::Var(n), .. } if n == "band")
    );
    // `shl shl band` is the name, the operator, the name.
    let StmtKind::Let { value: Expr::Bit(BitOp::Shl, l, r), .. } = &s.body[2].kind else {
        panic!("{:?}", s.body[2].kind)
    };
    assert!(matches!(&**l, Expr::Var(n) if n == "shl"));
    assert!(matches!(&**r, Expr::Var(n) if n == "band"));
    // `bnot` is reserved, so it is never a name.
    assert!(parse("module m\nsub main\n  let bnot: int = 1\nend\n").is_err());
    let m = parse("module m\nsub main\n  let x: int = bnot 1\nend\n").unwrap();
    let Item::Sub(s) = &m.items[0] else { panic!() };
    assert!(matches!(&s.body[0].kind, StmtKind::Let { value: Expr::BitNot(_), .. }));
}

/// A hex or binary literal reaches the tree as the bits that were written;
/// how wide they are is decided later, by what they meet.
#[test]
fn parses_bit_patterns() {
    let src = "module m\n\
               sub main\n\
                 let a: int = 0xFF\n\
                 let b: int = 0b1010\n\
                 let c: int = 0xDEAD_BEEF\n\
                 let d: int = -0x10\n\
               end\n";
    let m = parse(src).unwrap();
    let Item::Sub(s) = &m.items[0] else { panic!() };
    let value = |i: usize| match &s.body[i].kind {
        StmtKind::Let { value, .. } => value,
        other => panic!("{other:?}"),
    };
    assert_eq!(*value(0), Expr::BitsLit(0xFF));
    assert_eq!(*value(1), Expr::BitsLit(0b1010));
    assert_eq!(*value(2), Expr::BitsLit(0xDEAD_BEEF));
    // A leading `-` says the pattern was meant as a magnitude, so it
    // collapses to a plain number and stops depending on its width.
    assert_eq!(*value(3), Expr::IntLit(-16));
}

#[test]
fn parses_a_c_layout_record_with_a_byte_field() {
    let m = parse(
        "module m\nrecord Mixed is c\n  a: byte\n  b: int\nend\nsub main\nend\n",
    )
    .unwrap();
    let rec = m.records().into_iter().next().expect("a record");
    assert!(rec.is_c, "`is c` should mark the record C-layout");
    assert_eq!(rec.fields[0], ("a".to_string(), Ty::Byte));
    assert_eq!(rec.fields[1], ("b".to_string(), Ty::Int));
    let (offsets, size, align) = rec.c_layout(&Registry::new()).expect("a C layout");
    assert_eq!(offsets, vec![0, 4], "b is aligned to offset 4");
    assert_eq!(size, 8, "the struct is padded to its widest member");
    assert_eq!(align, 4, "the struct is as aligned as its widest member");
}

/// The field types a c-record adds for real C structs: the two extra
/// widths, a nested `is c` record by value, and a fixed inline array.
#[test]
fn parses_the_wider_c_record_field_types() {
    let m = parse(
        "module m\nrecord Point is c\n  x: int\n  y: int\nend\n\
         record Wide is c\n  a: int16\n  b: word\n  c: float\n  pt: Point\n\
         \u{20} rgb: byte[16]\nend\nsub main\nend\n",
    )
    .unwrap();
    let wide = m.records().into_iter().nth(1).expect("the second record");
    assert_eq!(wide.fields[0].1, Ty::Int16, "`int16` is a 16-bit field");
    assert_eq!(wide.fields[1].1, Ty::Int16, "`word` is the same width");
    assert_eq!(wide.fields[2].1, Ty::Float);
    assert_eq!(wide.fields[3].1, Ty::Record("Point"));
    assert_eq!(wide.fields[4].1, carray(Ty::Byte, 16));
}

/// A c-record laid out with a nested record and an inline array: the
/// offsets a C compiler would produce, from the one layout function.
#[test]
fn lays_out_a_nested_record_and_an_inline_array() {
    let m = parse(
        "module m\nrecord Point is c\n  x: int\n  y: int\nend\n\
         record Blob is c\n  n: int\n  pt: Point\n  rgb: byte[6]\nend\n\
         sub main\nend\n",
    )
    .unwrap();
    let mut reg = Registry::new();
    for r in m.records() {
        reg.insert_record(r.clone());
    }
    let blob = m.records().into_iter().nth(1).unwrap();
    let (offsets, size, align) = blob.c_layout(&reg).expect("a C layout");
    // n@0, pt@4 (a Point is 4-aligned), rgb@12, then two bytes of tail
    // padding to the struct's 4-byte alignment.
    assert_eq!(offsets, vec![0, 4, 12]);
    assert_eq!(size, 20);
    assert_eq!(align, 4);
}

/// A plain `record` keeps `is_c` false, and `byte` there is a record name,
/// not the layout type — the containment holds.
#[test]
fn a_plain_record_is_not_c_layout() {
    let m = parse("module m\nrecord point\n  x: int\nend\nsub main\nend\n").unwrap();
    assert!(!m.records().into_iter().next().unwrap().is_c);
}

/// `var r: RECT` with no `= value` is a zeroed c-record local; `size of` and
/// `address of` are the two operators a c-record adds.
#[test]
fn parses_zero_init_and_size_of() {
    let m = parse(
        "module m\nrecord RECT is c\n  n: int\nend\n\
         sub main\n  var r: RECT\n  let s: int64 = size of RECT\nend\n",
    )
    .unwrap();
    let Item::Sub(sub) = m.items.iter().find(|i| matches!(i, Item::Sub(_))).unwrap()
    else {
        panic!()
    };
    assert!(
        matches!(&sub.body[0].kind, StmtKind::Let { value: Expr::ZeroInit, .. }),
        "an uninitialised `var` is `ZeroInit`: {:?}",
        sub.body[0].kind
    );
    assert!(
        matches!(&sub.body[1].kind, StmtKind::Let { value: Expr::SizeOf(Ty::Record("RECT")), .. }),
        "`size of RECT` is `SizeOf(Record)`: {:?}",
        sub.body[1].kind
    );
}
