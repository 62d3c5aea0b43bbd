//! The reference interpreter: it runs a program on a tape of bytes, with the
//! input and the output held in memory.

use vstd::prelude::*;
use crate::backend::answers;
use crate::backend::atom_walked;
use crate::backend::loop_walked;
use crate::backend::passes;
use crate::backend::used;
use crate::backend::walked;
use crate::backend::Backend;
use crate::ir::Atom;
use crate::ir::SpecAtom;
use crate::ir::lemma_loop_model;
use crate::semantics::cell_at;
use crate::semantics::lemma_fault_sticks;
use crate::semantics::done;
use crate::semantics::loop_cap;
use crate::semantics::mul_add;
use crate::semantics::run;
use crate::semantics::run_atom;
use crate::semantics::run_loop;
use crate::semantics::step;
use crate::semantics::Fault;
use crate::semantics::Machine;
use crate::semantics::MEM_SIZE;
use crate::utils::offset_u8;
use crate::utils::offset_usize;

verus! {

/// `std::io::Error`, the failure of a stream: a value that is carried
/// through and never looked into.
#[verifier::external_type_specification]
#[verifier::external_body]
pub struct ExIoError(std::io::Error);

/// Why an interpretation stopped early.
#[derive(Debug)]
pub enum InterpreterError {
    /// A cell index beyond the tape. The interpreter reduces every index
    /// modulo the length of the tape, so it never reports this.
    IndexOutOfBounds(usize),
    /// A read found the input exhausted.
    EmptyInput,
    /// A failure of the stream behind the input or the output. The
    /// interpreter holds both in memory, so it never reports this; it is for
    /// callers that feed the interpreter from a stream.
    IOError(std::io::Error),
    /// A loop ran up to the cap on its rounds.
    LoopLimit,
}

/// Whether an error reports the given fault of the abstract machine.
pub open spec fn reports(e: InterpreterError, f: Fault) -> bool {
    match f {
        Fault::EmptyInput => e is EmptyInput,
        Fault::LoopLimit => e is LoopLimit,
    }
}

/// Whether a result is what the interpreter returns for an outcome: `Ok` for
/// a run that did not end early, else the error that reports the fault.
pub open spec fn result_of(r: Result<(), InterpreterError>, fault: Option<Fault>) -> bool {
    match fault {
        None => r is Ok,
        Some(f) => r is Err && reports(r->Err_0, f),
    }
}

/// An interpreter: the machine, and the cap on the rounds of a loop.
pub struct Interpreter {
    memory: Vec<u8>,
    ptr: usize,
    loop_limit: Option<usize>,
    reader: Vec<u8>,
    read_pos: usize,
    writer: Vec<u8>,
}

impl View for Interpreter {
    type V = Machine;

    closed spec fn view(&self) -> Machine {
        Machine {
            tape: self.memory@,
            cursor: self.ptr as int,
            input: self.reader@.skip(self.read_pos as int),
            output: self.writer@,
        }
    }
}

impl Interpreter {
    /// The interpreter's invariant: its tape has full length, its cursor is
    /// on the tape, and it has read no more than the input holds. `new`
    /// establishes it and every method keeps it.
    pub closed spec fn wf(&self) -> bool {
        &&& self.memory@.len() == MEM_SIZE
        &&& self.ptr < MEM_SIZE
        &&& self.read_pos <= self.reader@.len()
    }

    /// The cap on the rounds of one entry into a loop.
    pub closed spec fn cap(&self) -> int {
        loop_cap(self.loop_limit)
    }

    /// An interpreter at the start of a run: it will read `reader` and append
    /// what it emits to `writer`.
    pub fn new(reader: Vec<u8>, writer: Vec<u8>, loop_limit: Option<usize>) -> (it: Self)
        ensures
            it.wf(),
            it@ == (Machine { output: writer@, ..Machine::start(reader@) }),
            it.cap() == loop_cap(loop_limit),
    {
        let mut memory: Vec<u8> = Vec::with_capacity(MEM_SIZE);
        let mut i: usize = 0;
        while i < MEM_SIZE
            invariant
                i <= MEM_SIZE,
                memory@ =~= Seq::new(i as nat, |k: int| 0u8),
            decreases MEM_SIZE - i,
        {
            memory.push(0);
            i += 1;
        }
        let it = Interpreter { memory, ptr: 0, loop_limit, reader, read_pos: 0, writer };
        proof {
            assert(it@.input =~= reader@);
            assert(it@.tape =~= Machine::start(reader@).tape);
        }
        it
    }

    /// What has been emitted: the writer, handed back.
    pub fn into_writer(self) -> (writer: Vec<u8>)
        requires
            self.wf(),
        ensures
            writer@ == self@.output,
    {
        self.writer
    }

    /// Stores a value in the cell at the offset.
    pub fn set_memory_offset(&mut self, offset: isize, value: u8) -> (r: Result<
        (),
        InterpreterError,
    >)
        requires
            old(self).wf(),
        ensures
            final(self).wf(),
            r is Ok,
            final(self)@ == (Machine {
                tape: old(self)@.tape.update(cell_at(old(self)@.cursor, offset), value),
                ..old(self)@
            }),
            final(self).cap() == old(self).cap(),
    {
        let ptr = cell_index(self.ptr, offset);
        if ptr < self.memory.len() {
            self.memory[ptr] = value;
            Ok(())
        } else {
            Err(InterpreterError::IndexOutOfBounds(ptr))
        }
    }

    /// The value of the cell at the offset.
    pub fn get_memory_offset(&self, offset: isize) -> (r: Result<u8, InterpreterError>)
        requires
            self.wf(),
        ensures
            r is Ok,
            r->Ok_0 == self@.tape[cell_at(self@.cursor, offset)],
    {
        let ptr = cell_index(self.ptr, offset);
        if ptr < self.memory.len() {
            Ok(self.memory[ptr])
        } else {
            Err(InterpreterError::IndexOutOfBounds(ptr))
        }
    }

    /// Runs a move: the cursor goes to the cell at the offset.
    pub fn move_ptr(&mut self, offset: isize) -> (r: Result<(), InterpreterError>)
        requires
            old(self).wf(),
        ensures
            final(self).wf(),
            r is Ok,
            done(final(self)@) == step(old(self)@, SpecAtom::MovePtr(offset)),
            final(self).cap() == old(self).cap(),
    {
        self.ptr = cell_index(self.ptr, offset);
        Ok(())
    }

    /// Runs a store.
    pub fn set_value(&mut self, value: u8, offset: isize) -> (r: Result<(), InterpreterError>)
        requires
            old(self).wf(),
        ensures
            final(self).wf(),
            r is Ok,
            done(final(self)@) == step(old(self)@, SpecAtom::SetValue(value, offset)),
            final(self).cap() == old(self).cap(),
    {
        self.set_memory_offset(offset, value)
    }

    /// Runs an increment.
    pub fn inc_value(&mut self, inc: i8, offset: isize) -> (r: Result<(), InterpreterError>)
        requires
            old(self).wf(),
        ensures
            final(self).wf(),
            r is Ok,
            done(final(self)@) == step(old(self)@, SpecAtom::IncValue(inc, offset)),
            final(self).cap() == old(self).cap(),
    {
        match self.get_memory_offset(offset) {
            Ok(old_value) => self.set_memory_offset(offset, offset_u8(old_value, inc)),
            Err(e) => Err(e),
        }
    }

    /// Runs a print: the cell at the offset is appended to the output.
    pub fn print(&mut self, offset: isize) -> (r: Result<(), InterpreterError>)
        requires
            old(self).wf(),
        ensures
            final(self).wf(),
            r is Ok,
            done(final(self)@) == step(old(self)@, SpecAtom::Print(offset)),
            final(self).cap() == old(self).cap(),
    {
        match self.get_memory_offset(offset) {
            Ok(to_write) => {
                self.writer.push(to_write);
                Ok(())
            },
            Err(e) => Err(e),
        }
    }

    /// Runs a read: the next input byte goes to the cell at the offset, and
    /// the read fails if no input is left.
    pub fn read(&mut self, offset: isize) -> (r: Result<(), InterpreterError>)
        requires
            old(self).wf(),
        ensures
            final(self).wf(),
            final(self)@ == step(old(self)@, SpecAtom::Read(offset)).machine,
            result_of(r, step(old(self)@, SpecAtom::Read(offset)).fault),
            final(self).cap() == old(self).cap(),
    {
        if self.read_pos < self.reader.len() {
            let c = self.reader[self.read_pos];
            self.read_pos += 1;
            let ghost mid = self@;
            let r = self.set_memory_offset(offset, c);
            proof {
                assert(old(self)@.input.skip(1) =~= mid.input);
            }
            r
        } else {
            Err(InterpreterError::EmptyInput)
        }
    }

    /// Runs a multiplication.
    pub fn multiply(&mut self, factor: i8, offset: isize) -> (r: Result<(), InterpreterError>)
        requires
            old(self).wf(),
        ensures
            final(self).wf(),
            r is Ok,
            done(final(self)@) == step(old(self)@, SpecAtom::Multiply(factor, offset)),
            final(self).cap() == old(self).cap(),
    {
        let old_value = match self.get_memory_offset(offset) {
            Ok(v) => v,
            Err(e) => { return Err(e); },
        };
        let zero_value = match self.get_memory_offset(0) {
            Ok(v) => v,
            Err(e) => { return Err(e); },
        };
        self.set_memory_offset(offset, multiply_add(old_value, zero_value, factor))
    }

    /// Decides whether a loop that has completed `rounds` rounds runs its body
    /// once more: `Ok(false)` when the current cell is zero, an error when the
    /// next round would reach the cap, else `Ok(true)`.
    pub fn loop_test(&self, rounds: usize) -> (r: Result<bool, InterpreterError>)
        requires
            self.wf(),
        ensures
            loop_answer(self@, self.cap(), rounds, r),
            r == Ok::<bool, InterpreterError>(true) ==> rounds < usize::MAX,
    {
        let cell = match self.get_memory_offset(0) {
            Ok(v) => v,
            Err(e) => { return Err(e); },
        };
        if cell == 0 {
            return Ok(false);
        }
        if rounds == usize::MAX {
            return Err(InterpreterError::LoopLimit);
        }
        let loop_counter = rounds + 1;
        match self.loop_limit {
            Some(loop_limit) => {
                if loop_counter >= loop_limit {
                    return Err(InterpreterError::LoopLimit);
                }
            },
            None => {},
        }
        Ok(true)
    }

    /// Runs a program from the interpreter's present state.
    ///
    /// The interpreter ends in the state in which the run stopped, and the
    /// result is an error exactly when the run ended early.
    #[verifier::loop_isolation(false)]
    pub fn interpret(&mut self, ir: &Vec<Atom>) -> (r: Result<(), InterpreterError>)
        requires
            old(self).wf(),
        ensures
            final(self).wf(),
            final(self)@ == run(ir.deep_view(), old(self)@, old(self).cap()).machine,
            result_of(r, run(ir.deep_view(), old(self)@, old(self).cap()).fault),
            final(self).cap() == old(self).cap(),
        decreases ir, 0int,
    {
        let ghost prog = ir.deep_view();
        let ghost start = self@;
        let ghost cap = self.cap();
        let mut i: usize = 0;
        while i < ir.len()
            invariant
                i <= ir.len(),
                self.wf(),
                prog == ir.deep_view(),
                cap == self.cap(),
                run(prog.take(i as int), start, cap) == done(self@),
            decreases ir.len() - i,
        {
            let ghost next = prog.take(i as int + 1);
            let ghost before = self@;
            proof {
                assert(next.drop_last() =~= prog.take(i as int));
                assert(next.last() == ir[i as int].deep_view());
            }
            let r = match &ir[i] {
                Atom::MovePtr(offset) => self.move_ptr(*offset),
                Atom::SetValue(value, offset) => self.set_value(*value, *offset),
                Atom::IncValue(inc, offset) => self.inc_value(*inc, *offset),
                Atom::Print(offset) => self.print(*offset),
                Atom::Read(offset) => self.read(*offset),
                Atom::Multiply(factor, offset) => self.multiply(*factor, *offset),
                Atom::Loop(sub) => {
                    proof {
                        lemma_loop_model(*sub);
                    }
                    self.interpret_loop(sub)
                },
            };
            proof {
                assert(self@ == run_atom(next.last(), before, cap).machine);
                assert(result_of(r, run_atom(next.last(), before, cap).fault));
            }
            match r {
                Ok(()) => {},
                Err(e) => {
                    proof {
                        lemma_fault_sticks(prog, i as int + 1, start, cap);
                    }
                    return Err(e);
                },
            }
            i += 1;
        }
        proof {
            assert(prog.take(prog.len() as int) =~= prog);
        }
        Ok(())
    }

    /// Runs a loop with the given body from the interpreter's present state.
    #[verifier::loop_isolation(false)]
    pub fn interpret_loop(&mut self, sub: &Vec<Atom>) -> (r: Result<(), InterpreterError>)
        requires
            old(self).wf(),
        ensures
            final(self).wf(),
            final(self)@ == run_loop(sub.deep_view(), old(self)@, old(self).cap(), 0).machine,
            result_of(r, run_loop(sub.deep_view(), old(self)@, old(self).cap(), 0).fault),
            final(self).cap() == old(self).cap(),
        decreases sub, 1int,
    {
        let ghost body = sub.deep_view();
        let ghost start = self@;
        let ghost cap = self.cap();
        let mut rounds: usize = 0;
        loop
            invariant
                self.wf(),
                body == sub.deep_view(),
                cap == self.cap(),
                run_loop(body, start, cap, 0) == run_loop(body, self@, cap, rounds as int),
            decreases usize::MAX - rounds,
        {
            match self.loop_test(rounds) {
                Ok(true) => {},
                Ok(false) => {
                    return Ok(());
                },
                Err(e) => {
                    return Err(e);
                },
            }
            match self.interpret(sub) {
                Ok(()) => {},
                Err(e) => {
                    return Err(e);
                },
            }
            rounds += 1;
        }
    }
}

/// What the interpreter's test of a loop answers after `rounds` rounds.
pub open spec fn loop_answer(m: Machine, cap: int, rounds: usize, r: Result<
    bool,
    InterpreterError,
>) -> bool {
    if m.current() == 0 {
        r == Ok::<bool, InterpreterError>(false)
    } else if rounds + 1 >= cap {
        r is Err && r->Err_0 is LoopLimit
    } else {
        r == Ok::<bool, InterpreterError>(true)
    }
}

impl Backend for Interpreter {
    type Payload = Vec<u8>;

    type Error = InterpreterError;

    open spec fn ready(&self) -> bool {
        self.wf()
    }

    open spec fn initialized(pre: Self, post: Self, r: Result<(), InterpreterError>) -> bool {
        post == pre && r is Ok
    }

    open spec fn handled(
        pre: Self,
        atom: SpecAtom,
        post: Self,
        r: Result<(), InterpreterError>,
    ) -> bool {
        &&& post.cap() == pre.cap()
        &&& post@ == step(pre@, atom).machine
        &&& result_of(r, step(pre@, atom).fault)
    }

    open spec fn loop_handled(
        pre: Self,
        body: Seq<SpecAtom>,
        rounds: usize,
        post: Self,
        r: Result<bool, InterpreterError>,
    ) -> bool {
        post == pre && loop_answer(pre@, pre.cap(), rounds, r)
    }

    open spec fn finalized(pre: Self, r: Result<Vec<u8>, InterpreterError>) -> bool {
        r is Ok && r->Ok_0@ == pre@.output
    }

    /// Nothing to prepare.
    fn initialize(&mut self) -> (r: Result<(), InterpreterError>) {
        Ok(())
    }

    /// Hands out what has been emitted.
    fn finalize(self) -> (r: Result<Vec<u8>, InterpreterError>) {
        Ok(self.into_writer())
    }

    fn push_move_ptr(&mut self, offset: isize) -> (r: Result<(), InterpreterError>) {
        self.move_ptr(offset)
    }

    fn push_set_value(&mut self, value: u8, offset: isize) -> (r: Result<(), InterpreterError>) {
        self.set_value(value, offset)
    }

    fn push_inc_value(&mut self, inc: i8, offset: isize) -> (r: Result<(), InterpreterError>) {
        self.inc_value(inc, offset)
    }

    fn push_print(&mut self, offset: isize) -> (r: Result<(), InterpreterError>) {
        self.print(offset)
    }

    fn push_read(&mut self, offset: isize) -> (r: Result<(), InterpreterError>) {
        self.read(offset)
    }

    fn push_multiply(&mut self, factor: i8, offset: isize) -> (r: Result<(), InterpreterError>) {
        self.multiply(factor, offset)
    }

    fn push_loop(&mut self, sub: &Vec<Atom>, rounds: usize) -> (r: Result<
        bool,
        InterpreterError,
    >) {
        self.loop_test(rounds)
    }
}

/// A walk over the interpreter runs the program: it ends in the state, and
/// with the result, that the reference semantics give.
pub proof fn lemma_walk_runs(
    pre: Interpreter,
    prog: Seq<SpecAtom>,
    post: Interpreter,
    r: Result<(), InterpreterError>,
)
    requires
        walked(pre, prog, post, r),
    ensures
        post@ == run(prog, pre@, pre.cap()).machine,
        result_of(r, run(prog, pre@, pre.cap()).fault),
        post.cap() == pre.cap(),
    decreases prog, 0int, 0int,
{
    if prog.len() > 0 {
        let (mid, r1) = choose|mid: Interpreter, r1: Result<(), InterpreterError>|
            {
                &&& #[trigger] passes(mid, r1)
                &&& walked(pre, prog.drop_last(), mid, r1)
                &&& match r1 {
                    Err(e) => post == mid && r == r1,
                    Ok(_) => atom_walked(mid, prog.last(), post, r),
                }
            };
        lemma_walk_runs(pre, prog.drop_last(), mid, r1);
        if r1 is Ok {
            lemma_atom_walk_runs(mid, prog.last(), post, r);
        }
    }
}

/// A walk over one atom runs the atom.
pub proof fn lemma_atom_walk_runs(
    pre: Interpreter,
    atom: SpecAtom,
    post: Interpreter,
    r: Result<(), InterpreterError>,
)
    requires
        atom_walked(pre, atom, post, r),
    ensures
        post@ == run_atom(atom, pre@, pre.cap()).machine,
        result_of(r, run_atom(atom, pre@, pre.cap()).fault),
        post.cap() == pre.cap(),
    decreases atom, 0int, 0int,
{
    match atom {
        SpecAtom::Loop(body) => {
            lemma_loop_walk_runs(pre, body, 0, post, r);
        },
        _ => {},
    }
}

/// A walk over a loop runs the loop.
pub proof fn lemma_loop_walk_runs(
    pre: Interpreter,
    body: Seq<SpecAtom>,
    rounds: usize,
    post: Interpreter,
    r: Result<(), InterpreterError>,
)
    requires
        loop_walked(pre, body, rounds, post, r),
    ensures
        post@ == run_loop(body, pre@, pre.cap(), rounds as int).machine,
        result_of(r, run_loop(body, pre@, pre.cap(), rounds as int).fault),
        post.cap() == pre.cap(),
    decreases body, 1int, usize::MAX - rounds,
{
    let (asked, t) = choose|asked: Interpreter, t: Result<bool, InterpreterError>|
        {
            &&& #[trigger] answers(asked, t)
            &&& Interpreter::loop_handled(pre, body, rounds, asked, t)
            &&& match t {
                Err(e) => post == asked && r == Err::<(), InterpreterError>(e),
                Ok(again) => if !again {
                    post == asked && r is Ok
                } else {
                    &&& rounds < usize::MAX
                    &&& exists|after: Interpreter, r2: Result<(), InterpreterError>|
                        {
                            &&& #[trigger] passes(after, r2)
                            &&& walked(asked, body, after, r2)
                            &&& match r2 {
                                Err(e) => post == after && r == r2,
                                Ok(_) => loop_walked(
                                    after,
                                    body,
                                    (rounds + 1) as usize,
                                    post,
                                    r,
                                ),
                            }
                        }
                },
            }
        };
    if t == Ok::<bool, InterpreterError>(true) {
        let (after, r2) = choose|after: Interpreter, r2: Result<(), InterpreterError>|
            {
                &&& #[trigger] passes(after, r2)
                &&& walked(asked, body, after, r2)
                &&& match r2 {
                    Err(e) => post == after && r == r2,
                    Ok(_) => loop_walked(after, body, (rounds + 1) as usize, post, r),
                }
            };
        lemma_walk_runs(asked, body, after, r2);
        if r2 is Ok {
            lemma_loop_walk_runs(after, body, (rounds + 1) as usize, post, r);
        }
    }
}

/// `use_backend` on an interpreter runs the program from the interpreter's
/// state: it hands out the output of the run, or the error that reports the
/// fault that ended it.
pub proof fn law_use_runs(
    pre: Interpreter,
    prog: Seq<SpecAtom>,
    r: Result<Vec<u8>, InterpreterError>,
)
    requires
        used(pre, prog, r),
    ensures
        match run(prog, pre@, pre.cap()).fault {
            None => r is Ok && r->Ok_0@ == run(prog, pre@, pre.cap()).machine.output,
            Some(f) => r is Err && reports(r->Err_0, f),
        },
{
    let (started, r0) = choose|started: Interpreter, r0: Result<(), InterpreterError>|
        {
            &&& #[trigger] passes(started, r0)
            &&& Interpreter::initialized(pre, started, r0)
            &&& match r0 {
                Err(e) => r == Err::<Vec<u8>, InterpreterError>(e),
                Ok(_) => exists|ended: Interpreter, r1: Result<(), InterpreterError>|
                    {
                        &&& #[trigger] passes(ended, r1)
                        &&& walked(started, prog, ended, r1)
                        &&& match r1 {
                            Err(e) => r == Err::<Vec<u8>, InterpreterError>(e),
                            Ok(_) => Interpreter::finalized(ended, r),
                        }
                    },
            }
        };
    let (ended, r1) = choose|ended: Interpreter, r1: Result<(), InterpreterError>|
        {
            &&& #[trigger] passes(ended, r1)
            &&& walked(started, prog, ended, r1)
            &&& match r1 {
                Err(e) => r == Err::<Vec<u8>, InterpreterError>(e),
                Ok(_) => Interpreter::finalized(ended, r),
            }
        };
    lemma_walk_runs(started, prog, ended, r1);
}

/// The index of the cell at `offset` from the cell with index `ptr`, on the
/// ring of the tape: the offset is reduced to less than one turn, and added
/// to the index as a signed offset to an unsigned word.
pub fn cell_index(ptr: usize, offset: isize) -> (r: usize)
    requires
        ptr < MEM_SIZE,
    ensures
        r == cell_at(ptr as int, offset),
{
    let turn: isize = offset % 30_000;
    offset_usize(ptr + MEM_SIZE, turn) % MEM_SIZE
}

/// The cell plus the base times the factor, modulo 256.
pub fn multiply_add(cell: u8, base: u8, factor: i8) -> (r: u8)
    ensures
        r == mul_add(cell, base, factor),
{
    assert(-32640 <= (base as int) * (factor as int) <= 32385) by (nonlinear_arith)
        requires
            0 <= base <= 255,
            -128 <= factor <= 127,
    ;
    let product: i32 = (base as i32) * (factor as i32);
    let shifted: i32 = cell as i32 + product + 32768;
    (shifted % 256) as u8
}

} // verus!
