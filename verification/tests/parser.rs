use openepl::parser::parse;

#[test]
fn rejects_a_duplicate_parameter() {
    assert!(parse("module m\nsub f(a: int, a: int)\nend\n").is_err());
}

#[test]
fn rejects_an_unknown_calling_convention() {
    // On a `dll` and on a `sub`; the message names the offender and the set.
    for src in [
        "module m\ndll f(): int from \"x\" fastcall\n",
        "module m\nsub f(a: int): int pascal\n  return 0\nend\n",
    ] {
        let e = parse(src).expect_err("an unknown convention must be rejected");
        assert!(
            e.msg.contains("stdcall"),
            "the diagnostic should name the allowed set, got: {}",
            e.msg
        );
    }
}

#[test]
fn rejects_a_convention_before_as() {
    let e = parse("module m\ndll f(): int from \"x\" system as \"g\"\n")
        .expect_err("a convention before `as` must be rejected");
    assert!(
        e.msg.contains("before the calling convention"),
        "the diagnostic should point at the `as`/convention order, got: {}",
        e.msg
    );
}

#[test]
fn rejects_a_zero_step_and_a_non_literal_step() {
    assert!(parse("module m\nsub main\n  for i = 1 to 3 step 0\n  end\nend\n").is_err());
    assert!(parse("module m\nsub main\n  var k: int = 2\n  for i = 1 to 3 step k\n  end\nend\n").is_err());
    assert!(parse("module m\nsub main\n  for i = 1 10\n  end\nend\n").is_err());
}

#[test]
fn rejects_an_array_of_arrays() {
    let e = parse("module m\nsub main\n  let xs: int[][] = []\nend\n").unwrap_err();
    assert!(e.msg.contains("cannot hold arrays"), "{}", e.msg);
}

#[test]
fn rejects_an_array_of_byte_sets() {
    assert!(parse("module m\nsub main\n  let b: bytes[] = []\nend\n").is_err());
}

#[test]
fn rejects_a_record_with_no_fields() {
    let e = parse("module m\nrecord empty\nend\nsub main\nend\n").unwrap_err();
    assert!(e.msg.contains("has no fields"), "{}", e.msg);
}

#[test]
fn a_constant_must_be_a_literal_not_an_expression() {
    let e = parse("module m\nconst A = 1 + 2\nsub main\nend\n").unwrap_err();
    assert!(e.line > 0, "a non-literal constant must be rejected: {}", e.msg);
}

#[test]
fn defaults_stand_only_on_the_last_parameters() {
    let e = parse("module m\nsub f(a: int = 1, b: int)\nend\n").unwrap_err();
    assert!(e.msg.contains("has no default but `a` before it does"));
    let m = parse("module m\nsub f(a: int, b: int = 2, c: int = 3)\nend\n").unwrap();
    let s = m.subs()[0];
    assert_eq!(s.name, "f");
    assert!(s.defaults[0].is_none() && s.defaults[1].is_some() && s.defaults[2].is_some());
}
