//! `offset_op` keeps what a program does: the offsets it writes reach the
//! cells that the program reaches by moving.

use vstd::prelude::*;
use crate::equiv::local::lemma_add_offsets_exact;
use crate::equiv::stays::alike;
use crate::equiv::stays::atom_stays;
use crate::equiv::stays::lemma_cell_on_tape;
use crate::equiv::stays::lemma_run_push;
use crate::equiv::stays::lemma_run_wf;
use crate::equiv::stays::loop_stays;
use crate::equiv::stays::stays;
use crate::equiv::stays::step_stays;
use crate::ir::SpecAtom;
use crate::opt::add_offsets;
use crate::opt::flush;
use crate::opt::offset_op_spec;
use crate::opt::offset_step;
use crate::opt::offset_sweep;
use crate::semantics::done;
use crate::semantics::run;
use crate::semantics::run_atom;
use crate::semantics::run_loop;
use crate::semantics::step;
use crate::semantics::Machine;
use crate::semantics::Outcome;

verus! {

/// Whether the run of the atoms that the sweep has emitted trails the run of
/// the atoms swept: it ended early in the same way, or it is in the same
/// state but for the cursor, which the gathered displacement would take to
/// where the program's cursor is.
pub open spec fn trails(swept: Outcome, acc: isize, orig: Outcome) -> bool {
    &&& swept.fault == orig.fault
    &&& swept.machine.tape == orig.machine.tape
    &&& swept.machine.input == orig.machine.input
    &&& swept.machine.output == orig.machine.output
    &&& swept.fault is None ==> swept.machine.cursor + acc == orig.machine.cursor
}

/// One atom with its offset shifted, run where the cursor lags behind by the
/// shift, does what the atom does.
proof fn lemma_shifted_step(lag: Machine, acc: isize, m: Machine, a: SpecAtom, shifted: SpecAtom)
    requires
        m.wf(),
        lag.wf(),
        trails(done(lag), acc, done(m)),
        step_stays(m, a),
        match a {
            SpecAtom::SetValue(v, o) => shifted == SpecAtom::SetValue(v, add_offsets(acc, o)),
            SpecAtom::IncValue(d, o) => shifted == SpecAtom::IncValue(d, add_offsets(acc, o)),
            SpecAtom::Print(o) => shifted == SpecAtom::Print(add_offsets(acc, o)),
            SpecAtom::Read(o) => shifted == SpecAtom::Read(add_offsets(acc, o)),
            _ => false,
        },
    ensures
        step_stays(lag, shifted),
        trails(step(lag, shifted), acc, step(m, a)),
{
    let o = match a {
        SpecAtom::SetValue(_, o) => o,
        SpecAtom::IncValue(_, o) => o,
        SpecAtom::Print(o) => o,
        SpecAtom::Read(o) => o,
        _ => 0isize,
    };
    if a is Read && m.input.len() == 0 {
    } else {
        lemma_add_offsets_exact(acc, o);
        lemma_cell_on_tape(m.cursor, o);
        lemma_cell_on_tape(lag.cursor, add_offsets(acc, o));
    }
}

/// The atoms that the sweep of `offset_op` has emitted do what the atoms
/// swept do, but for the moves that the sweep has gathered.
pub proof fn lemma_offset_sweep_alike(s: Seq<SpecAtom>, m: Machine, cap: int)
    requires
        m.wf(),
        stays(s, m, cap),
    ensures
        stays(offset_sweep(s).0, m, cap),
        trails(run(offset_sweep(s).0, m, cap), offset_sweep(s).1, run(s, m, cap)),
    decreases s, 0int, 0int,
{
    if s.len() > 0 {
        let init = s.drop_last();
        let a = s.last();
        lemma_offset_sweep_alike(init, m, cap);
        lemma_run_wf(init, m, cap);
        let (out0, acc0) = offset_sweep(init);
        lemma_run_wf(out0, m, cap);
        let orig = run(init, m, cap);
        let swept = run(out0, m, cap);
        assert(offset_sweep(s) == offset_step(out0, acc0, a));
        let mo = orig.machine;
        let ms = swept.machine;
        match a {
            SpecAtom::MovePtr(x) => {
                if orig.fault is None {
                    assert(atom_stays(a, mo, cap));
                    lemma_add_offsets_exact(acc0, x);
                    lemma_cell_on_tape(mo.cursor, x);
                }
            },
            SpecAtom::Multiply(f, x) => {
                let sync = flush(acc0);
                lemma_run_push(out0, sync, m, cap);
                lemma_run_push(out0.push(sync), a, m, cap);
                if orig.fault is None {
                    assert(atom_stays(a, mo, cap));
                    lemma_cell_on_tape(ms.cursor, acc0);
                    assert(step(ms, sync).machine == mo);
                }
            },
            SpecAtom::Loop(body) => {
                let sync = flush(acc0);
                let lp = SpecAtom::Loop(offset_op_spec(body));
                lemma_run_push(out0, sync, m, cap);
                lemma_run_push(out0.push(sync), lp, m, cap);
                if orig.fault is None {
                    assert(atom_stays(a, mo, cap));
                    lemma_cell_on_tape(ms.cursor, acc0);
                    assert(step(ms, sync).machine == mo);
                    lemma_offset_loop_alike(body, mo, cap, 0);
                }
            },
            _ => {
                let shifted = offset_sweep(s).0.last();
                assert(offset_sweep(s).0 == out0.push(shifted));
                lemma_run_push(out0, shifted, m, cap);
                if orig.fault is None {
                    assert(atom_stays(a, mo, cap));
                    lemma_shifted_step(ms, acc0, mo, a, shifted);
                    assert(run_atom(shifted, ms, cap) == step(ms, shifted));
                    assert(run_atom(a, mo, cap) == step(mo, a));
                }
            },
        }
    }
}

/// The program that `offset_op` gives does what the program does.
pub proof fn lemma_offset_op_alike(s: Seq<SpecAtom>, m: Machine, cap: int)
    requires
        m.wf(),
        stays(s, m, cap),
    ensures
        stays(offset_op_spec(s), m, cap),
        alike(run(offset_op_spec(s), m, cap), run(s, m, cap)),
    decreases s, 1int, 0int,
{
    lemma_offset_sweep_alike(s, m, cap);
    let (out, acc) = offset_sweep(s);
    lemma_run_push(out, flush(acc), m, cap);
    lemma_run_wf(out, m, cap);
    lemma_run_wf(s, m, cap);
    let swept = run(out, m, cap);
    if swept.fault is None {
        lemma_cell_on_tape(swept.machine.cursor, acc);
    }
}

/// A loop with the body that `offset_op` gives does what the loop does.
pub proof fn lemma_offset_loop_alike(body: Seq<SpecAtom>, m: Machine, cap: int, rounds: int)
    requires
        m.wf(),
        loop_stays(body, m, cap, rounds),
    ensures
        loop_stays(offset_op_spec(body), m, cap, rounds),
        alike(
            run_loop(offset_op_spec(body), m, cap, rounds),
            run_loop(body, m, cap, rounds),
        ),
    decreases body, 2int, cap - rounds,
{
    if m.current() != 0 && rounds + 1 < cap {
        lemma_offset_op_alike(body, m, cap);
        lemma_run_wf(body, m, cap);
        let after = run(body, m, cap);
        if after.fault is None {
            assert(run(offset_op_spec(body), m, cap) == after);
            lemma_offset_loop_alike(body, after.machine, cap, rounds + 1);
        }
    }
}

} // verus!
