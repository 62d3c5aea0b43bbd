use bfc::backend::interpreter::Interpreter;
use bfc::backend::use_backend;
use bfc::ir::build_ir;
use bfc::ir::Atom;
use bfc::opt::run_opts;
use quickcheck::quickcheck;
use quickcheck::TestResult;

const LOOP_LIMIT: usize = 255 * 4;

fn get_output(ir: &Vec<Atom>, input: &Vec<u8>) -> Result<Vec<u8>, String> {
    let interpreter = Interpreter::new(input.clone(), Vec::new(), Some(LOOP_LIMIT));
    match use_backend(interpreter, ir) {
        Ok(output) => Ok(output),
        Err(err) => Err(format!("{:?}", err)),
    }
}

fn opt_no_change(prog: Vec<u8>, input: Vec<u8>) -> TestResult {
    let ir = if let Ok(ir) = build_ir(&prog) {
        ir
    } else {
        return TestResult::discard();
    };

    const MAX_PROG_SIZE: usize = 1_000_000;
    if prog.len() >= MAX_PROG_SIZE {
        return TestResult::discard();
    }

    let opt_ir = run_opts(ir.clone());
    let normal_output = get_output(&ir, &input);
    let opt_output = get_output(&opt_ir, &input);

    TestResult::from_bool(normal_output == opt_output)
}

fn opt_idempotent(prog: Vec<u8>) -> TestResult {
    let ir = if let Ok(ir) = build_ir(&prog) {
        ir
    } else {
        return TestResult::discard();
    };

    let opt1 = run_opts(ir);
    let opt2 = run_opts(opt1.clone());

    TestResult::from_bool(opt1 == opt2)
}

#[test]
fn quickcheck_opt_no_change() {
    quickcheck(opt_no_change as fn(Vec<u8>, Vec<u8>) -> TestResult);
}

#[test]
fn quickcheck_opt_idempotent() {
    quickcheck(opt_idempotent as fn(Vec<u8>) -> TestResult);
}
