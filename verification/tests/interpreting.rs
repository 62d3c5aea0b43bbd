use bfc::backend::interpreter::Interpreter;
use bfc::backend::interpreter::InterpreterError;
use bfc::backend::push_atoms;
use bfc::backend::use_backend;
use bfc::backend::Backend;
use bfc::interpreter::interpret;
use bfc::interpreter::interpret_with_loop_limit;
use bfc::ir::build_ir;
use bfc::ir::Atom;
use bfc::opt::run_opts;

const HELLO_WORLD: &[u8] = b"++++++++[>++++[>++>+++>+++>+<<<<-]>+>+>->>+[<]<-]>>.>---.+++++++..+++.>>.<-.<.+++.------.--------.>>+.>++.";

fn output_of(ir: &Vec<Atom>, input: &[u8]) -> Vec<u8> {
    let mut out = Vec::new();
    interpret(ir, input.to_vec(), &mut out).unwrap();
    out
}

#[test]
fn hello_world_without_optimization() {
    let ir = build_ir(HELLO_WORLD).unwrap();
    assert_eq!(output_of(&ir, b""), b"Hello World!\n".to_vec());
}

#[test]
fn hello_world_with_optimization() {
    let ir = run_opts(build_ir(HELLO_WORLD).unwrap());
    assert_eq!(output_of(&ir, b""), b"Hello World!\n".to_vec());
}

#[test]
fn hello_world_through_the_backend_interface() {
    let ir = run_opts(build_ir(HELLO_WORLD).unwrap());
    let interpreter = Interpreter::new(Vec::new(), Vec::new(), None);
    assert_eq!(use_backend(interpreter, &ir).unwrap(), b"Hello World!\n".to_vec());
}

#[test]
fn increments_wrap_around_after_256() {
    let mut source = vec![b'+'; 256];
    source.push(b'.');
    let ir = build_ir(&source).unwrap();
    assert_eq!(output_of(&ir, b""), vec![0]);
    let mut source = vec![b'+'; 255];
    source.push(b'.');
    let ir = build_ir(&source).unwrap();
    assert_eq!(output_of(&ir, b""), vec![255]);
}

#[test]
fn decrement_of_zero_is_255() {
    let ir = build_ir(b"-.").unwrap();
    assert_eq!(output_of(&ir, b""), vec![255]);
}

#[test]
fn moving_right_past_the_end_comes_back_to_the_first_cell() {
    let ir = vec![Atom::IncValue(7, 0), Atom::MovePtr(30000), Atom::Print(0)];
    assert_eq!(output_of(&ir, b""), vec![7]);
    let ir = vec![Atom::IncValue(7, 0), Atom::MovePtr(29999), Atom::MovePtr(1), Atom::Print(0)];
    assert_eq!(output_of(&ir, b""), vec![7]);
    let ir = vec![Atom::IncValue(7, 0), Atom::Print(30000), Atom::Print(60001)];
    assert_eq!(output_of(&ir, b""), vec![7, 0]);
}

#[test]
fn moving_left_of_the_first_cell_is_no_error() {
    let ir = build_ir(b"<+.<<<-.").unwrap();
    assert_eq!(output_of(&ir, b""), vec![1, 255]);
}

#[test]
fn the_tape_is_a_ring() {
    let ir = vec![
        Atom::SetValue(9, -1),
        Atom::MovePtr(29999),
        Atom::Print(0),
        Atom::MovePtr(1),
        Atom::IncValue(1, 0),
        Atom::Print(-1),
        Atom::Print(0),
        Atom::Print(30000),
        Atom::Print(-60000),
        Atom::MovePtr(-1),
        Atom::MovePtr(1),
        Atom::Print(0),
        Atom::MovePtr(-30001),
        Atom::Print(0),
    ];
    assert_eq!(output_of(&ir, b""), vec![9, 9, 1, 1, 1, 1, 9]);
}

#[test]
fn the_largest_offsets_reach_their_cells() {
    let down = (isize::MIN).rem_euclid(30000);
    let up = (isize::MAX).rem_euclid(30000);
    let ir = vec![
        Atom::SetValue(5, isize::MIN),
        Atom::SetValue(6, isize::MAX),
        Atom::Print(down),
        Atom::Print(up),
        Atom::MovePtr(isize::MIN),
        Atom::Print(0),
        Atom::MovePtr(isize::MAX),
        Atom::MovePtr(1),
        Atom::Print(down),
    ];
    assert_eq!(output_of(&ir, b""), vec![5, 6, 5, 5]);
}

#[test]
fn a_step_to_the_left_of_the_first_cell_and_back() {
    let ir = build_ir(b"+<>.<-.>.").unwrap();
    assert_eq!(output_of(&ir, b""), vec![1, 255, 1]);
    assert_eq!(output_of(&run_opts(ir), b""), vec![1, 255, 1]);
}

#[test]
fn set_and_multiply() {
    let ir = vec![
        Atom::SetValue(200, 0),
        Atom::SetValue(5, 2),
        Atom::Multiply(3, 2),
        Atom::Multiply(-1, 1),
        Atom::Print(2),
        Atom::Print(1),
        Atom::Print(0),
    ];
    assert_eq!(output_of(&ir, b""), vec![93, 56, 200]);
}

#[test]
fn read_copies_input_to_output() {
    let ir = build_ir(b",[.,]").unwrap();
    let mut out = Vec::new();
    let r = interpret(&ir, b"abc\0def".to_vec(), &mut out);
    assert!(r.is_ok());
    assert_eq!(out, b"abc".to_vec());
}

#[test]
fn read_at_the_end_of_the_input_fails() {
    let ir = build_ir(b",.,.,.").unwrap();
    let mut out = vec![b'>'];
    let r = interpret(&ir, b"xy".to_vec(), &mut out);
    assert!(matches!(r, Err(InterpreterError::EmptyInput)));
    assert_eq!(out, b">xy".to_vec());
}

#[test]
fn a_loop_that_reaches_the_limit_fails() {
    let ir = build_ir(b"+++++[.-]").unwrap();
    let mut out = Vec::new();
    assert!(interpret_with_loop_limit(&ir, Vec::new(), &mut out, 6).is_ok());
    assert_eq!(out, vec![5, 4, 3, 2, 1]);
    let mut out = Vec::new();
    let r = interpret_with_loop_limit(&ir, Vec::new(), &mut out, 5);
    assert!(matches!(r, Err(InterpreterError::LoopLimit)));
    assert_eq!(out, vec![5, 4, 3, 2]);
}

#[test]
fn the_limit_counts_each_entry_into_a_loop_anew() {
    let ir = build_ir(b"++[>+++[-]<-]").unwrap();
    let mut out = Vec::new();
    assert!(interpret_with_loop_limit(&ir, Vec::new(), &mut out, 4).is_ok());
    let mut out = Vec::new();
    let r = interpret_with_loop_limit(&ir, Vec::new(), &mut out, 3);
    assert!(matches!(r, Err(InterpreterError::LoopLimit)));
}

#[test]
fn a_limit_of_zero_or_one_stops_every_loop_that_would_run() {
    let ir = build_ir(b"[-]+[-]").unwrap();
    for limit in [0, 1] {
        let mut out = Vec::new();
        let r = interpret_with_loop_limit(&ir, Vec::new(), &mut out, limit);
        assert!(matches!(r, Err(InterpreterError::LoopLimit)));
    }
}

#[test]
fn an_endless_loop_is_stopped_by_the_limit() {
    let ir = build_ir(b"+[]").unwrap();
    let interpreter = Interpreter::new(Vec::new(), Vec::new(), Some(1000));
    assert!(matches!(use_backend(interpreter, &ir), Err(InterpreterError::LoopLimit)));
}

#[test]
fn the_walk_and_the_direct_run_agree() {
    let ir = build_ir(b",>,<[->+<]>.[[-]<+++>]<.,").unwrap();
    for input in [&b"\x03\x04"[..], &b"\x03\x04\x05"[..], &b""[..]] {
        let mut direct = Interpreter::new(input.to_vec(), Vec::new(), Some(50));
        let direct_result = direct.interpret(&ir);
        let mut walked = Interpreter::new(input.to_vec(), Vec::new(), Some(50));
        let walked_result = match walked.initialize() {
            Ok(()) => push_atoms(&mut walked, &ir),
            Err(e) => Err(e),
        };
        assert_eq!(format!("{:?}", direct_result), format!("{:?}", walked_result));
        assert_eq!(direct.into_writer(), walked.into_writer());
    }
}

#[test]
fn handlers_can_be_called_one_by_one() {
    let mut interpreter = Interpreter::new(vec![65], vec![1, 2], None);
    interpreter.push_read(3).unwrap();
    interpreter.push_move_ptr(3).unwrap();
    interpreter.push_inc_value(-2, 0).unwrap();
    interpreter.push_print(0).unwrap();
    interpreter.push_set_value(10, 1).unwrap();
    interpreter.push_multiply(2, 1).unwrap();
    interpreter.push_print(1).unwrap();
    assert!(interpreter.push_loop(&vec![], 0).unwrap());
    interpreter.push_set_value(0, 0).unwrap();
    assert!(!interpreter.push_loop(&vec![], 1).unwrap());
    assert_eq!(interpreter.finalize().unwrap(), vec![1, 2, 63, 136]);
}
