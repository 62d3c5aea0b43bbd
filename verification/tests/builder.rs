use bfc::ir::build_ir;
use bfc::ir::Atom;
use bfc::ir::ParenError;

#[test]
fn each_instruction_byte_gives_its_atom() {
    let ir = build_ir(b"+-<>.,").unwrap();
    assert_eq!(
        ir,
        vec![
            Atom::IncValue(1, 0),
            Atom::IncValue(-1, 0),
            Atom::MovePtr(-1),
            Atom::MovePtr(1),
            Atom::Print(0),
            Atom::Read(0),
        ]
    );
}

#[test]
fn other_bytes_are_skipped() {
    let ir = build_ir(b"a+ b\n[x-y]\x00\xff").unwrap();
    assert_eq!(ir, vec![Atom::IncValue(1, 0), Atom::Loop(vec![Atom::IncValue(-1, 0)])]);
}

#[test]
fn empty_source_is_the_empty_program() {
    assert_eq!(build_ir(b"").unwrap(), vec![]);
}

#[test]
fn loops_nest() {
    let ir = build_ir(b"[[+][]]-[>]").unwrap();
    assert_eq!(
        ir,
        vec![
            Atom::Loop(vec![Atom::Loop(vec![Atom::IncValue(1, 0)]), Atom::Loop(vec![])]),
            Atom::IncValue(-1, 0),
            Atom::Loop(vec![Atom::MovePtr(1)]),
        ]
    );
}

#[test]
fn unmatched_close_is_reported_at_its_position() {
    assert_eq!(build_ir(b"+]").unwrap_err(), ParenError::LeftMissing(1));
    assert_eq!(build_ir(b"[]]+[").unwrap_err(), ParenError::LeftMissing(2));
    assert_eq!(build_ir(b"]").unwrap_err(), ParenError::LeftMissing(0));
    assert_eq!(build_ir(b"[+[-]]--]]").unwrap_err(), ParenError::LeftMissing(8));
}

#[test]
fn unmatched_open_is_reported_at_the_outermost_open_loop() {
    assert_eq!(build_ir(b"[").unwrap_err(), ParenError::RightMissing(0));
    assert_eq!(build_ir(b"+[]+[->[+]").unwrap_err(), ParenError::RightMissing(4));
    assert_eq!(build_ir(b"..[[[]").unwrap_err(), ParenError::RightMissing(2));
}

#[test]
fn the_first_unmatched_close_wins_over_an_open_loop() {
    assert_eq!(build_ir(b"[[]]][").unwrap_err(), ParenError::LeftMissing(4));
}

#[test]
fn a_deep_nest_builds() {
    let depth = 2000;
    let mut source = Vec::new();
    for _ in 0..depth {
        source.push(b'[');
    }
    for _ in 0..depth {
        source.push(b']');
    }
    let mut ir = build_ir(&source).unwrap();
    let mut seen = 0;
    while let Some(Atom::Loop(body)) = ir.pop() {
        assert!(ir.is_empty());
        ir = body;
        seen += 1;
    }
    assert_eq!(seen, depth);
}

#[test]
fn a_clone_is_equal() {
    let ir = build_ir(b"+[>,[-.]<]").unwrap();
    assert_eq!(ir.clone(), ir);
}
