//! `offset_op` keeps what a calm program does, and keeps it calm.

use vstd::prelude::*;
use crate::calm::local::offset_room;
use crate::calm::ring::calm;
use crate::calm::ring::calm_atom;
use crate::calm::ring::drift;
use crate::calm::ring::lemma_calm_drift;
use crate::calm::ring::lemma_calm_push;
use crate::calm::ring::lemma_ring_steps;
use crate::calm::ring::reach;
use crate::calm::ring::within;
use crate::equiv::stays::alike;
use crate::equiv::stays::lemma_run_push;
use crate::equiv::stays::lemma_run_wf;
use crate::ir::SpecAtom;
use crate::opt::add_offsets;
use crate::opt::flush;
use crate::opt::offset_op_spec;
use crate::opt::offset_step;
use crate::opt::offset_sweep;
use crate::semantics::cell_at;
use crate::semantics::done;
use crate::semantics::run;
use crate::semantics::run_atom;
use crate::semantics::run_loop;
use crate::semantics::step;
use crate::semantics::Machine;
use crate::semantics::Outcome;

verus! {

/// Whether the run of the atoms that the sweep has emitted follows the run
/// of the atoms swept: it ended early in the same way, or it is in the same
/// state but for the cursor, which a move by the gathered displacement
/// would take to where the program's cursor is.
pub open spec fn follows(swept: Outcome, acc: isize, orig: Outcome) -> bool {
    &&& swept.fault == orig.fault
    &&& swept.machine.tape == orig.machine.tape
    &&& swept.machine.input == orig.machine.input
    &&& swept.machine.output == orig.machine.output
    &&& swept.fault is None ==> cell_at(swept.machine.cursor, acc) == orig.machine.cursor
}

/// One atom with its offset shifted, run where the cursor lags behind by the
/// shift, does what the atom does.
proof fn lemma_shifted_step(lag: Machine, acc: isize, m: Machine, a: SpecAtom, shifted: SpecAtom)
    requires
        follows(done(lag), acc, done(m)),
        within(acc as int, 2 * offset_room()),
        within(reach(a), 2 * offset_room()),
        match a {
            SpecAtom::SetValue(v, o) => shifted == SpecAtom::SetValue(v, add_offsets(acc, o)),
            SpecAtom::IncValue(d, o) => shifted == SpecAtom::IncValue(d, add_offsets(acc, o)),
            SpecAtom::Print(o) => shifted == SpecAtom::Print(add_offsets(acc, o)),
            SpecAtom::Read(o) => shifted == SpecAtom::Read(add_offsets(acc, o)),
            _ => false,
        },
    ensures
        follows(step(lag, shifted), acc, step(m, a)),
        reach(shifted) == acc + reach(a),
        !(shifted is MovePtr) && !(shifted is Loop),
{
    let o = match a {
        SpecAtom::SetValue(_, o) => o,
        SpecAtom::IncValue(_, o) => o,
        SpecAtom::Print(o) => o,
        SpecAtom::Read(o) => o,
        _ => 0isize,
    };
    lemma_ring_steps(lag.cursor, acc, o);
}

/// What the sweep of `offset_op` has emitted from a calm program is as
/// calm, and with the gathered moves it takes the cursor as far.
pub proof fn lemma_offset_sweep_static(s: Seq<SpecAtom>, bound: int)
    requires
        calm(s, bound),
        0 <= bound <= offset_room(),
    ensures
        calm(offset_sweep(s).0, bound),
        drift(offset_sweep(s).0) + offset_sweep(s).1 == drift(s),
        within(offset_sweep(s).1 as int, 2 * bound),
    decreases s, 0int,
{
    if s.len() > 0 {
        let init = s.drop_last();
        let a = s.last();
        lemma_offset_sweep_static(init, bound);
        let (out0, acc0) = offset_sweep(init);
        lemma_calm_drift(out0, bound);
        lemma_calm_drift(init, bound);
        assert(offset_sweep(s) == offset_step(out0, acc0, a));
        assert(calm_atom(a, bound));
        let out1 = offset_sweep(s).0;
        match a {
            SpecAtom::MovePtr(x) => {
                assert(add_offsets(acc0, x) == acc0 + x);
            },
            SpecAtom::Multiply(_, _) => {
                lemma_calm_push(out0, flush(acc0), bound);
                lemma_calm_push(out0.push(flush(acc0)), a, bound);
            },
            SpecAtom::Loop(body) => {
                lemma_offset_op_static(body, bound);
                let lp = SpecAtom::Loop(offset_op_spec(body));
                lemma_calm_push(out0, flush(acc0), bound);
                lemma_calm_push(out0.push(flush(acc0)), lp, bound);
                assert(calm_atom(lp, bound));
            },
            _ => {
                let shifted = out1.last();
                assert(out1 == out0.push(shifted));
                assert(reach(shifted) == acc0 + reach(a)) by {
                    assert(add_offsets(acc0, reach(a) as isize) == acc0 + reach(a));
                }
                lemma_calm_push(out0, shifted, bound);
            },
        }
        lemma_calm_drift(out1, bound);
        lemma_calm_drift(s, bound);
    }
}

/// What `offset_op` gives from a calm program is as calm, and takes the
/// cursor as far.
pub proof fn lemma_offset_op_static(s: Seq<SpecAtom>, bound: int)
    requires
        calm(s, bound),
        0 <= bound <= offset_room(),
    ensures
        calm(offset_op_spec(s), bound),
        drift(offset_op_spec(s)) == drift(s),
    decreases s, 1int,
{
    lemma_offset_sweep_static(s, bound);
    lemma_calm_push(offset_sweep(s).0, flush(offset_sweep(s).1), bound);
    lemma_calm_drift(s, bound);
}

/// The sweep gathers a move.
proof fn lemma_follow_move(swept: Outcome, acc: isize, orig: Outcome, x: isize)
    requires
        follows(swept, acc, orig),
        within(acc as int, 2 * offset_room()),
        within(x as int, 2 * offset_room()),
    ensures
        orig.fault is None ==> follows(
            swept,
            add_offsets(acc, x),
            step(orig.machine, SpecAtom::MovePtr(x)),
        ),
{
    lemma_ring_steps(swept.machine.cursor, acc, x);
}

/// The sweep emits the gathered moves as one move: the cursor is then where
/// the program's cursor is.
proof fn lemma_follow_flush(swept: Outcome, acc: isize, orig: Outcome)
    requires
        follows(swept, acc, orig),
    ensures
        orig.fault is None ==> step(swept.machine, flush(acc)) == done(orig.machine),
{
}

/// The atoms that the sweep of `offset_op` has emitted do what the atoms
/// swept do, but for the moves that the sweep has gathered.
pub proof fn lemma_offset_sweep_calm(s: Seq<SpecAtom>, m: Machine, cap: int, bound: int)
    requires
        m.wf(),
        calm(s, bound),
        0 <= bound <= offset_room(),
    ensures
        follows(run(offset_sweep(s).0, m, cap), offset_sweep(s).1, run(s, m, cap)),
    decreases s, 0int, 0int,
{
    if s.len() == 0 {
        assert(cell_at(m.cursor, 0) == m.cursor);
    } else {
        let init = s.drop_last();
        let a = s.last();
        lemma_offset_sweep_calm(init, m, cap, bound);
        lemma_offset_sweep_static(init, bound);
        lemma_calm_drift(init, bound);
        let (out0, acc0) = offset_sweep(init);
        assert(offset_sweep(s) == offset_step(out0, acc0, a));
        assert(calm_atom(a, bound));
        let orig = run(init, m, cap);
        let swept = run(out0, m, cap);
        lemma_run_wf(init, m, cap);
        match a {
            SpecAtom::MovePtr(x) => {
                lemma_follow_move(swept, acc0, orig, x);
                if orig.fault is None {
                    assert(run_atom(a, orig.machine, cap) == step(orig.machine, a));
                }
            },
            SpecAtom::Multiply(_, _) => {
                let sync = flush(acc0);
                lemma_run_push(out0, sync, m, cap);
                lemma_run_push(out0.push(sync), a, m, cap);
                lemma_follow_flush(swept, acc0, orig);
                if orig.fault is None {
                    assert(run_atom(sync, swept.machine, cap) == step(swept.machine, sync));
                    lemma_anchored(run_atom(a, orig.machine, cap), run_atom(a, orig.machine, cap));
                    crate::equiv::stays::lemma_atom_wf(a, orig.machine, cap);
                }
            },
            SpecAtom::Loop(body) => {
                let sync = flush(acc0);
                let lp = SpecAtom::Loop(offset_op_spec(body));
                lemma_run_push(out0, sync, m, cap);
                lemma_run_push(out0.push(sync), lp, m, cap);
                lemma_follow_flush(swept, acc0, orig);
                if orig.fault is None {
                    assert(run_atom(sync, swept.machine, cap) == step(swept.machine, sync));
                    lemma_offset_loop_calm(body, orig.machine, cap, 0, bound);
                    crate::equiv::stays::lemma_atom_wf(lp, orig.machine, cap);
                    lemma_anchored(run_atom(lp, orig.machine, cap), run_atom(a, orig.machine, cap));
                }
            },
            _ => {
                let shifted = offset_sweep(s).0.last();
                assert(offset_sweep(s).0 == out0.push(shifted));
                lemma_run_push(out0, shifted, m, cap);
                if orig.fault is None {
                    lemma_shifted_step(swept.machine, acc0, orig.machine, a, shifted);
                    assert(run_atom(shifted, swept.machine, cap) == step(swept.machine, shifted));
                    assert(run_atom(a, orig.machine, cap) == step(orig.machine, a));
                }
            },
        }
    }
}

/// Outcomes that are alike follow each other with nothing gathered.
proof fn lemma_anchored(swept: Outcome, orig: Outcome)
    requires
        alike(swept, orig),
        swept.machine.wf(),
    ensures
        follows(swept, 0, orig),
{
}

/// The program that `offset_op` gives does what the calm program does.
pub proof fn lemma_offset_op_calm(s: Seq<SpecAtom>, m: Machine, cap: int, bound: int)
    requires
        m.wf(),
        calm(s, bound),
        0 <= bound <= offset_room(),
    ensures
        alike(run(offset_op_spec(s), m, cap), run(s, m, cap)),
    decreases s, 1int, 0int,
{
    lemma_offset_sweep_calm(s, m, cap, bound);
    let (out, acc) = offset_sweep(s);
    lemma_run_push(out, flush(acc), m, cap);
    let swept = run(out, m, cap);
    lemma_follow_flush(swept, acc, run(s, m, cap));
    if swept.fault is None {
        assert(run_atom(flush(acc), swept.machine, cap) == step(swept.machine, flush(acc)));
    }
}

/// A loop with the body that `offset_op` gives does what the loop does.
pub proof fn lemma_offset_loop_calm(
    body: Seq<SpecAtom>,
    m: Machine,
    cap: int,
    rounds: int,
    bound: int,
)
    requires
        m.wf(),
        calm(body, bound),
        0 <= bound <= offset_room(),
    ensures
        alike(
            run_loop(offset_op_spec(body), m, cap, rounds),
            run_loop(body, m, cap, rounds),
        ),
    decreases body, 2int, cap - rounds,
{
    if m.current() != 0 && rounds + 1 < cap {
        lemma_offset_op_calm(body, m, cap, bound);
        lemma_run_wf(body, m, cap);
        let after = run(body, m, cap);
        if after.fault is None {
            assert(run(offset_op_spec(body), m, cap) == after);
            lemma_offset_loop_calm(body, after.machine, cap, rounds + 1, bound);
        }
    }
}

} // verus!
