//! What a program does: the reference semantics, as functions on an abstract
//! machine. The interpreter is verified against them.

use vstd::prelude::*;
use crate::ir::SpecAtom;
use crate::utils::offset_u8_spec;

verus! {

/// The number of cells of the tape.
pub const MEM_SIZE: usize = 30_000;

/// The state of the abstract machine.
pub struct Machine {
    /// The tape: `MEM_SIZE` cells.
    pub tape: Seq<u8>,
    /// The index of the current cell.
    pub cursor: int,
    /// The input bytes that have not been read yet.
    pub input: Seq<u8>,
    /// The bytes emitted so far.
    pub output: Seq<u8>,
}

/// The ways in which a run ends early.
pub enum Fault {
    /// A read when no input is left.
    EmptyInput,
    /// One entry into a loop kept it running up to the cap on its rounds.
    LoopLimit,
}

/// Where a run stopped, and the fault that stopped it if it ended early.
pub struct Outcome {
    pub machine: Machine,
    pub fault: Option<Fault>,
}

impl Machine {
    /// A machine has a tape of full length and its cursor on the tape.
    pub open spec fn wf(self) -> bool {
        self.tape.len() == MEM_SIZE && 0 <= self.cursor < MEM_SIZE
    }

    /// The machine before a program starts: all cells zero, the cursor on the
    /// first cell, nothing emitted.
    pub open spec fn start(input: Seq<u8>) -> Machine {
        Machine {
            tape: Seq::new(MEM_SIZE as nat, |i: int| 0u8),
            cursor: 0,
            input,
            output: Seq::empty(),
        }
    }

    /// The value of the current cell.
    pub open spec fn current(self) -> u8 {
        self.tape[self.cursor]
    }
}

/// The index of the cell at `offset` from the cursor. The tape is a ring:
/// the cell behind the last is the first, and the cell before the first is
/// the last.
pub open spec fn cell_at(cursor: int, offset: isize) -> int {
    (cursor + offset) % (MEM_SIZE as int)
}

/// The cell after a multiplication: the cell plus the current cell times the
/// factor, modulo 256.
pub open spec fn mul_add(cell: u8, base: u8, factor: i8) -> u8 {
    ((cell + base * factor) % 256) as u8
}

/// A run that did not end early.
pub open spec fn done(m: Machine) -> Outcome {
    Outcome { machine: m, fault: None }
}

/// A run that ended early in state `m`.
pub open spec fn failed(m: Machine, f: Fault) -> Outcome {
    Outcome { machine: m, fault: Some(f) }
}

/// What one atom other than a loop does to the machine.
pub open spec fn step(m: Machine, a: SpecAtom) -> Outcome {
    match a {
        SpecAtom::MovePtr(o) => done(Machine { cursor: cell_at(m.cursor, o), ..m }),
        SpecAtom::SetValue(v, o) => done(
            Machine { tape: m.tape.update(cell_at(m.cursor, o), v), ..m },
        ),
        SpecAtom::IncValue(d, o) => {
            let i = cell_at(m.cursor, o);
            done(Machine { tape: m.tape.update(i, offset_u8_spec(m.tape[i], d)), ..m })
        },
        SpecAtom::Print(o) => done(
            Machine { output: m.output.push(m.tape[cell_at(m.cursor, o)]), ..m },
        ),
        SpecAtom::Read(o) => if m.input.len() == 0 {
            failed(m, Fault::EmptyInput)
        } else {
            done(
                Machine {
                    tape: m.tape.update(cell_at(m.cursor, o), m.input[0]),
                    input: m.input.skip(1),
                    ..m
                },
            )
        },
        SpecAtom::Multiply(f, o) => {
            let i = cell_at(m.cursor, o);
            done(Machine { tape: m.tape.update(i, mul_add(m.tape[i], m.current(), f)), ..m })
        },
        SpecAtom::Loop(_) => done(m),
    }
}

/// The cap on the rounds of one entry into a loop: the limit if one is set,
/// else one more than the largest count of rounds that the machine can hold.
pub open spec fn loop_cap(limit: Option<usize>) -> int {
    match limit {
        Some(l) => l as int,
        None => usize::MAX + 1,
    }
}

/// What a program does to the machine: its atoms run in order, and the first
/// fault ends the run.
pub open spec fn run(prog: Seq<SpecAtom>, m: Machine, cap: int) -> Outcome
    decreases prog, 0int, 0int,
{
    if prog.len() == 0 {
        done(m)
    } else {
        let before = run(prog.drop_last(), m, cap);
        if before.fault is Some {
            before
        } else {
            run_atom(prog.last(), before.machine, cap)
        }
    }
}

/// What one atom does to the machine.
pub open spec fn run_atom(a: SpecAtom, m: Machine, cap: int) -> Outcome
    decreases a, 0int, 0int,
{
    match a {
        SpecAtom::Loop(body) => run_loop(body, m, cap, 0),
        _ => step(m, a),
    }
}

/// What a loop does that has completed `rounds` rounds since it was entered:
/// it ends when the current cell is zero; else the next round would be round
/// `rounds + 1`, which is a fault if that reaches the cap; else the body runs
/// and the loop goes on.
pub open spec fn run_loop(body: Seq<SpecAtom>, m: Machine, cap: int, rounds: int) -> Outcome
    decreases body, 1int, cap - rounds,
{
    if m.current() == 0 {
        done(m)
    } else if rounds + 1 >= cap {
        failed(m, Fault::LoopLimit)
    } else {
        let after = run(body, m, cap);
        if after.fault is Some {
            after
        } else {
            run_loop(body, after.machine, cap, rounds + 1)
        }
    }
}

/// A fault in a prefix of a program is the outcome of the whole program.
pub proof fn lemma_fault_sticks(prog: Seq<SpecAtom>, n: int, m: Machine, cap: int)
    requires
        0 <= n <= prog.len(),
        run(prog.take(n), m, cap).fault is Some,
    ensures
        run(prog, m, cap) == run(prog.take(n), m, cap),
    decreases prog.len() - n,
{
    if n == prog.len() {
        assert(prog.take(n) =~= prog);
    } else {
        assert(prog.take(n + 1).drop_last() =~= prog.take(n));
        lemma_fault_sticks(prog, n + 1, m, cap);
    }
}

/// The program that increments the current cell `n` times.
pub open spec fn increments(n: nat) -> Seq<SpecAtom> {
    Seq::new(n, |i: int| SpecAtom::IncValue(1, 0))
}

/// What `n` increments do: the current cell grows by `n` modulo 256, and
/// nothing else changes.
pub proof fn lemma_increments(n: nat, m: Machine, cap: int)
    requires
        m.wf(),
    ensures
        run(increments(n), m, cap) == done(
            Machine { tape: m.tape.update(m.cursor, ((m.current() + n) % 256) as u8), ..m },
        ),
    decreases n,
{
    if n == 0 {
        assert(m.tape.update(m.cursor, m.current()) =~= m.tape);
        assert(increments(0) =~= Seq::<SpecAtom>::empty());
    } else {
        let fewer = (n - 1) as nat;
        lemma_increments(fewer, m, cap);
        assert(increments(n).drop_last() =~= increments(fewer));
        let a = SpecAtom::IncValue(1, 0);
        assert(increments(n).last() == a);
        let before = run(increments(fewer), m, cap).machine;
        assert(cell_at(m.cursor, 0) == m.cursor);
        assert(run_atom(a, before, cap) == step(before, a));
        assert(before.tape.update(m.cursor, offset_u8_spec(before.tape[m.cursor], 1))
            =~= m.tape.update(m.cursor, ((m.current() + n) % 256) as u8));
    }
}

/// 256 increments of a cell leave the machine as it was: a cell wraps around.
pub proof fn law_full_turn(m: Machine, cap: int)
    requires
        m.wf(),
    ensures
        run(increments(256), m, cap) == done(m),
{
    lemma_increments(256, m, cap);
    assert(m.tape.update(m.cursor, m.current()) =~= m.tape);
}

} // verus!
