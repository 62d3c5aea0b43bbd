use bfc::backend::interpreter::InterpreterError;
use bfc::interpreter::interpret_with_loop_limit;
use bfc::ir::build_ir;
use bfc::ir::Atom;
use bfc::opt::run_opts;
use bfc::opt::settled::is_countdown;
use bfc::opt::settled::is_settled;
use bfc::opt::settled::pair_settled;

const PROGRAMS: [&[u8]; 16] = [
    b"+<>.",
    b"<<<+[>+<<-].>.>.",
    b",>,>,<<[->>[-<+>>+<]>[-<+>]<<<]>.>.",
    b"+[>+]-.",
    b"",
    b"+",
    b"+>,[>+.<-]<<++[-]>[,.]",
    b"++++++++[>++++[>++>+++>+++>+<<<<-]>+>+>->>+[<]<-]>>.>---.+++++++..+++.>>.<-.<.+++.------.--------.>>+.>++.",
    b",[.,]",
    b">>>+<<<-[>]",
    b"+[->+-<]+",
    b"[->+<]<+>+",
    b"+[[-]>[.>]<<]",
    b"-[>-<---]>.",
    b"+><+",
    b"[..[..[,]]]",
];

#[test]
fn the_settled_programs_are_those_left_as_they_are() {
    for source in PROGRAMS {
        let plain = build_ir(source).unwrap();
        assert_eq!(is_settled(&plain), run_opts(plain.clone()) == plain);
        let once = run_opts(plain);
        assert_eq!(is_settled(&once), run_opts(once.clone()) == once);
    }
    let odd = vec![
        vec![Atom::Multiply(0, 1)],
        vec![Atom::MovePtr(2), Atom::Multiply(1, 1), Atom::SetValue(0, 0), Atom::MovePtr(-2)],
        vec![Atom::SetValue(1, isize::MAX), Atom::SetValue(2, isize::MIN)],
        vec![Atom::SetValue(2, isize::MIN), Atom::SetValue(1, isize::MAX)],
        vec![Atom::Loop(vec![Atom::IncValue(1, -1), Atom::IncValue(-1, 0), Atom::IncValue(1, 1)])],
        vec![Atom::Loop(vec![Atom::IncValue(1, -1), Atom::SetValue(1, 0), Atom::IncValue(1, 1)])],
        vec![Atom::Print(1), Atom::MovePtr(1), Atom::Loop(vec![Atom::Read(0), Atom::MovePtr(isize::MIN)])],
        vec![Atom::MovePtr(1), Atom::MovePtr(-1)],
        vec![Atom::IncValue(1, 0), Atom::MovePtr(1), Atom::IncValue(1, -1)],
    ];
    for program in odd {
        assert_eq!(is_settled(&program), run_opts(program.clone()) == program);
    }
}

#[test]
fn what_the_optimizer_gives_is_mostly_settled() {
    for source in [&b"+>,[>+.<-]<<++[-]>[,.]"[..], b",[.,]", b">>>+<<<-[>]", b"+[[-]>[.>]<<]", b"+><+"] {
        assert!(is_settled(&run_opts(build_ir(source).unwrap())));
    }
}

#[test]
fn the_optimizer_can_leave_work_for_a_second_run() {
    let once = run_opts(build_ir(b"+[->+-<]+").unwrap());
    assert_eq!(once, vec![Atom::IncValue(1, 0), Atom::SetValue(1, 0)]);
    assert!(!is_settled(&once));
    let twice = run_opts(once);
    assert_eq!(twice, vec![Atom::SetValue(1, 0)]);
    assert!(is_settled(&twice));

    let once = run_opts(build_ir(b"[->+<]<+>+").unwrap());
    assert_eq!(
        once,
        vec![
            Atom::Multiply(1, 1),
            Atom::SetValue(0, 0),
            Atom::IncValue(1, -1),
            Atom::IncValue(1, 0),
        ]
    );
    assert!(!is_settled(&once));
    assert_eq!(
        run_opts(once),
        vec![Atom::Multiply(1, 1), Atom::IncValue(1, -1), Atom::SetValue(1, 0)]
    );
}

#[test]
fn what_is_settled_and_what_is_not() {
    assert!(is_settled(&vec![]));
    assert!(is_settled(&vec![Atom::IncValue(1, -2), Atom::SetValue(0, 0), Atom::Print(0), Atom::MovePtr(3)]));
    assert!(is_settled(&vec![Atom::MovePtr(1), Atom::Loop(vec![Atom::Read(0), Atom::MovePtr(-1)])]));
    assert!(is_settled(&vec![Atom::MovePtr(1), Atom::Multiply(0, 1)]));
    assert!(is_settled(&vec![Atom::Loop(vec![])]));
    assert!(is_settled(&vec![Atom::Loop(vec![Atom::IncValue(-1, 1)])]));
    assert!(is_settled(&vec![Atom::Loop(vec![Atom::IncValue(-1, 0), Atom::MovePtr(1)])]));

    assert!(!is_settled(&vec![Atom::MovePtr(0)]));
    assert!(!is_settled(&vec![Atom::IncValue(0, 5)]));
    assert!(!is_settled(&vec![Atom::MovePtr(1), Atom::MovePtr(1)]));
    assert!(!is_settled(&vec![Atom::MovePtr(1), Atom::Print(0)]));
    assert!(!is_settled(&vec![Atom::IncValue(1, 0), Atom::SetValue(1, 0)]));
    assert!(!is_settled(&vec![Atom::IncValue(1, 1), Atom::IncValue(1, 0)]));
    assert!(!is_settled(&vec![Atom::Loop(vec![Atom::IncValue(-1, 0)])]));
    assert!(!is_settled(&vec![Atom::Loop(vec![Atom::IncValue(-1, 0), Atom::IncValue(2, 3)])]));
    assert!(!is_settled(&vec![Atom::Loop(vec![Atom::Loop(vec![Atom::MovePtr(0)])])]));
}

#[test]
fn neighbours_and_countdowns() {
    assert!(pair_settled(&Atom::MovePtr(1), &Atom::Loop(vec![])));
    assert!(pair_settled(&Atom::SetValue(1, 0), &Atom::IncValue(1, 1)));
    assert!(pair_settled(&Atom::Print(0), &Atom::Print(0)));
    assert!(!pair_settled(&Atom::SetValue(1, 1), &Atom::IncValue(1, 1)));
    assert!(!pair_settled(&Atom::MovePtr(1), &Atom::SetValue(0, 0)));
    assert!(is_countdown(&vec![Atom::IncValue(4, -1), Atom::IncValue(-1, 0)]));
    assert!(!is_countdown(&vec![Atom::IncValue(4, -1), Atom::IncValue(-2, 0)]));
    assert!(!is_countdown(&vec![Atom::IncValue(-1, 0), Atom::MovePtr(1)]));
    assert!(!is_countdown(&vec![]));
}

fn run(ir: &Vec<Atom>, input: &[u8], limit: usize) -> (Vec<u8>, Result<(), InterpreterError>) {
    let mut out = Vec::new();
    let r = interpret_with_loop_limit(ir, input.to_vec(), &mut out, limit);
    (out, r)
}

#[test]
fn optimized_programs_give_the_same_output() {
    for source in PROGRAMS {
        let ir = build_ir(source).unwrap();
        let optimized = run_opts(ir.clone());
        for input in [&b""[..], b"a", b"\x03\x02\x01\x00", b"hello world"] {
            let (plain_out, plain_result) = run(&ir, input, 300);
            let (fast_out, fast_result) = run(&optimized, input, 300);
            assert_eq!(format!("{:?}", plain_result), format!("{:?}", fast_result));
            assert_eq!(plain_out, fast_out);
        }
    }
}

#[test]
fn offsets_a_tape_apart_can_mislead_the_optimizer() {
    let mut source = vec![b'>'; 30000];
    source.extend_from_slice(b"[-]+++++");
    source.extend(vec![b'<'; 30000]);
    source.extend_from_slice(b"[-]+++++++.");
    let ir = build_ir(&source).unwrap();
    let optimized = run_opts(ir.clone());
    assert_eq!(
        optimized,
        vec![Atom::SetValue(7, 0), Atom::SetValue(5, 30000), Atom::Print(0)]
    );
    assert_eq!(run(&ir, b"", 300).0, vec![7]);
    assert_eq!(run(&optimized, b"", 300).0, vec![5]);
}

#[test]
fn a_long_walk_around_the_tape_changes_nothing() {
    let ir = build_ir(b"+[.>+]").unwrap();
    let optimized = run_opts(ir.clone());
    let (plain_out, plain_result) = run(&ir, b"", 40000);
    let (fast_out, fast_result) = run(&optimized, b"", 40000);
    assert_eq!(format!("{:?}", plain_result), format!("{:?}", fast_result));
    assert_eq!(plain_out, fast_out);
    assert!(plain_out.len() > 100);
}

#[test]
fn a_low_limit_can_stop_a_loop_that_the_optimizer_replaces() {
    let ir = build_ir(b"-[-]").unwrap();
    let optimized = run_opts(ir.clone());
    assert_eq!(optimized, vec![Atom::SetValue(0, 0)]);
    assert!(matches!(run(&ir, b"", 255).1, Err(InterpreterError::LoopLimit)));
    assert!(run(&optimized, b"", 255).1.is_ok());
    assert!(run(&ir, b"", 256).1.is_ok());
}
