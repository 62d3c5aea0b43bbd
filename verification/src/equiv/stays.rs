//! Runs that stay on the tape, and how the run of a sequence is made of the
//! runs of its parts.

use vstd::prelude::*;
use crate::ir::SpecAtom;
use crate::semantics::cell_at;
use crate::semantics::done;
use crate::semantics::run;
use crate::semantics::run_atom;
use crate::semantics::run_loop;
use crate::semantics::step;
use crate::semantics::Machine;
use crate::semantics::Outcome;
use crate::semantics::MEM_SIZE;

verus! {

/// Whether the cell at `offset` from the cursor is reached without going
/// past either end of the tape.
pub open spec fn on_tape(cursor: int, offset: isize) -> bool {
    0 <= cursor + offset < MEM_SIZE
}

/// Whether an atom other than a loop, run in state `m`, stays on the tape.
/// A read that finds no input and a multiplication by a zero cell reach for
/// no cell.
pub open spec fn step_stays(m: Machine, a: SpecAtom) -> bool {
    match a {
        SpecAtom::MovePtr(o) => on_tape(m.cursor, o),
        SpecAtom::SetValue(_, o) => on_tape(m.cursor, o),
        SpecAtom::IncValue(_, o) => on_tape(m.cursor, o),
        SpecAtom::Print(o) => on_tape(m.cursor, o),
        SpecAtom::Read(o) => m.input.len() == 0 || on_tape(m.cursor, o),
        SpecAtom::Multiply(_, o) => m.current() == 0 || on_tape(m.cursor, o),
        SpecAtom::Loop(_) => true,
    }
}

/// Whether the run of a program from state `m` stays on the tape: no move
/// and no access of a cell, as far as the run gets, goes past an end of the
/// tape.
pub open spec fn stays(prog: Seq<SpecAtom>, m: Machine, cap: int) -> bool
    decreases prog, 0int, 0int,
{
    if prog.len() == 0 {
        true
    } else {
        let before = run(prog.drop_last(), m, cap);
        stays(prog.drop_last(), m, cap) && (before.fault is Some || atom_stays(
            prog.last(),
            before.machine,
            cap,
        ))
    }
}

/// Whether the run of one atom stays on the tape.
pub open spec fn atom_stays(a: SpecAtom, m: Machine, cap: int) -> bool
    decreases a, 0int, 0int,
{
    match a {
        SpecAtom::Loop(body) => loop_stays(body, m, cap, 0),
        _ => step_stays(m, a),
    }
}

/// Whether the run of a loop that has completed `rounds` rounds stays on the tape.
pub open spec fn loop_stays(body: Seq<SpecAtom>, m: Machine, cap: int, rounds: int) -> bool
    decreases body, 1int, cap - rounds,
{
    if m.current() == 0 {
        true
    } else if rounds + 1 >= cap {
        true
    } else {
        let after = run(body, m, cap);
        stays(body, m, cap) && (after.fault is Some || loop_stays(
            body,
            after.machine,
            cap,
            rounds + 1,
        ))
    }
}

/// Whether two outcomes are alike: both runs ended early, for the same
/// reason and with the same tape, input and output, or neither did and they
/// ended in the same state.
pub open spec fn alike(a: Outcome, b: Outcome) -> bool {
    &&& a.fault == b.fault
    &&& a.machine.tape == b.machine.tape
    &&& a.machine.input == b.machine.input
    &&& a.machine.output == b.machine.output
    &&& a.fault is None ==> a.machine.cursor == b.machine.cursor
}

/// On the tape, the cell at an offset is the cursor plus the offset.
pub proof fn lemma_cell_on_tape(cursor: int, offset: isize)
    requires
        0 <= cursor < MEM_SIZE,
        on_tape(cursor, offset),
    ensures
        cell_at(cursor, offset) == cursor + offset,
{
}

/// The cell at offset zero is the current cell.
pub proof fn lemma_cell_here(cursor: int)
    requires
        0 <= cursor < MEM_SIZE,
    ensures
        cell_at(cursor, 0) == cursor,
{
}

/// A step keeps the machine well formed.
pub proof fn lemma_step_wf(m: Machine, a: SpecAtom)
    requires
        m.wf(),
    ensures
        step(m, a).machine.wf(),
{
}

/// A run keeps the machine well formed.
pub proof fn lemma_run_wf(prog: Seq<SpecAtom>, m: Machine, cap: int)
    requires
        m.wf(),
    ensures
        run(prog, m, cap).machine.wf(),
    decreases prog, 0int, 0int,
{
    if prog.len() > 0 {
        lemma_run_wf(prog.drop_last(), m, cap);
        let before = run(prog.drop_last(), m, cap);
        if before.fault is None {
            lemma_atom_wf(prog.last(), before.machine, cap);
        }
    }
}

/// The run of an atom keeps the machine well formed.
pub proof fn lemma_atom_wf(a: SpecAtom, m: Machine, cap: int)
    requires
        m.wf(),
    ensures
        run_atom(a, m, cap).machine.wf(),
    decreases a, 0int, 0int,
{
    match a {
        SpecAtom::Loop(body) => {
            lemma_loop_wf(body, m, cap, 0);
        },
        _ => {
            lemma_step_wf(m, a);
        },
    }
}

/// The run of a loop keeps the machine well formed.
pub proof fn lemma_loop_wf(body: Seq<SpecAtom>, m: Machine, cap: int, rounds: int)
    requires
        m.wf(),
    ensures
        run_loop(body, m, cap, rounds).machine.wf(),
    decreases body, 1int, cap - rounds,
{
    if m.current() != 0 && rounds + 1 < cap {
        lemma_run_wf(body, m, cap);
        let after = run(body, m, cap);
        if after.fault is None {
            lemma_loop_wf(body, after.machine, cap, rounds + 1);
        }
    }
}

/// The run of a sequence with one more atom at its end.
pub proof fn lemma_run_push(prog: Seq<SpecAtom>, a: SpecAtom, m: Machine, cap: int)
    ensures
        run(prog.push(a), m, cap) == if run(prog, m, cap).fault is Some {
            run(prog, m, cap)
        } else {
            run_atom(a, run(prog, m, cap).machine, cap)
        },
        stays(prog.push(a), m, cap) == (stays(prog, m, cap) && (run(prog, m, cap).fault is Some
            || atom_stays(a, run(prog, m, cap).machine, cap))),
{
    assert(prog.push(a).drop_last() =~= prog);
}

/// The run of two sequences one after the other.
pub proof fn lemma_run_concat(p: Seq<SpecAtom>, q: Seq<SpecAtom>, m: Machine, cap: int)
    ensures
        run(p + q, m, cap) == if run(p, m, cap).fault is Some {
            run(p, m, cap)
        } else {
            run(q, run(p, m, cap).machine, cap)
        },
        stays(p + q, m, cap) == (stays(p, m, cap) && (run(p, m, cap).fault is Some || stays(
            q,
            run(p, m, cap).machine,
            cap,
        ))),
    decreases q.len(),
{
    if q.len() == 0 {
        assert(p + q =~= p);
    } else {
        lemma_run_concat(p, q.drop_last(), m, cap);
        assert((p + q).drop_last() =~= p + q.drop_last());
        assert((p + q).last() == q.last());
    }
}

/// The run of a single atom as a sequence.
pub proof fn lemma_run_one(a: SpecAtom, m: Machine, cap: int)
    ensures
        run(seq![a], m, cap) == run_atom(a, m, cap),
        stays(seq![a], m, cap) == atom_stays(a, m, cap),
{
    let none = Seq::<SpecAtom>::empty();
    assert(seq![a] =~= none.push(a));
    lemma_run_push(none, a, m, cap);
    assert(run(none, m, cap) == done(m));
    assert(stays(none, m, cap));
}

} // verus!
