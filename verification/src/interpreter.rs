//! Running a program with the reference interpreter.

use vstd::prelude::*;
use crate::backend::interpreter::result_of;
pub use crate::backend::interpreter::Interpreter;
pub use crate::backend::interpreter::InterpreterError;
use crate::ir::Atom;
use crate::semantics::loop_cap;
use crate::semantics::run;
use crate::semantics::Machine;

verus! {

/// Runs a program from the start, with no limit on the rounds of a loop but
/// the range of the counter of rounds. The program reads `reader`; what it
/// emits is appended to `writer`, also when the run ends early.
pub fn interpret(ir: &Vec<Atom>, reader: Vec<u8>, writer: &mut Vec<u8>) -> (r: Result<
    (),
    InterpreterError,
>)
    ensures
        ({
            let start = Machine { output: old(writer)@, ..Machine::start(reader@) };
            let outcome = run(ir.deep_view(), start, loop_cap(None));
            final(writer)@ == outcome.machine.output && result_of(r, outcome.fault)
        }),
{
    let mut sink: Vec<u8> = Vec::new();
    std::mem::swap(writer, &mut sink);
    let mut machine = Interpreter::new(reader, sink, None);
    let r = machine.interpret(ir);
    *writer = machine.into_writer();
    r
}

/// Runs a program from the start; a loop that one entry keeps running until
/// its round with the number `loop_limit` would begin ends the run with
/// `LoopLimit`.
pub fn interpret_with_loop_limit(
    ir: &Vec<Atom>,
    reader: Vec<u8>,
    writer: &mut Vec<u8>,
    loop_limit: usize,
) -> (r: Result<(), InterpreterError>)
    ensures
        ({
            let start = Machine { output: old(writer)@, ..Machine::start(reader@) };
            let outcome = run(ir.deep_view(), start, loop_cap(Some(loop_limit)));
            final(writer)@ == outcome.machine.output && result_of(r, outcome.fault)
        }),
{
    let mut sink: Vec<u8> = Vec::new();
    std::mem::swap(writer, &mut sink);
    let mut machine = Interpreter::new(reader, sink, Some(loop_limit));
    let r = machine.interpret(ir);
    *writer = machine.into_writer();
    r
}

} // verus!
