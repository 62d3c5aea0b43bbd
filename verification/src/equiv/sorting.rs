//! `reorder` keeps what a program does: writes to different cells can change
//! places.

use vstd::prelude::*;
use crate::equiv::local::lemma_step_write;
use crate::equiv::local::written;
use crate::equiv::stays::atom_stays;
use crate::equiv::stays::lemma_cell_on_tape;
use crate::equiv::stays::lemma_run_concat;
use crate::equiv::stays::lemma_run_push;
use crate::equiv::stays::lemma_run_wf;
use crate::equiv::stays::loop_stays;
use crate::equiv::stays::stays;
use crate::equiv::stays::step_stays;
use crate::ir::SpecAtom;
use crate::opt::insert_by_offset;
use crate::opt::is_write;
use crate::opt::reorder_atom;
use crate::opt::reorder_spec;
use crate::opt::reorder_sweep;
use crate::opt::sorted_by_offset;
use crate::opt::write_offset;
use crate::semantics::cell_at;
use crate::semantics::run;
use crate::semantics::run_atom;
use crate::semantics::run_loop;
use crate::semantics::step;
use crate::semantics::Machine;

verus! {

/// Whether a sequence holds nothing but writes.
pub open spec fn all_writes(w: Seq<SpecAtom>) -> bool {
    forall|i: int| 0 <= i < w.len() ==> is_write(#[trigger] w[i])
}

/// A run of writes never ends early and changes nothing but the tape.
pub proof fn lemma_writes_run(w: Seq<SpecAtom>, m: Machine, cap: int)
    requires
        all_writes(w),
    ensures
        run(w, m, cap).fault is None,
        run(w, m, cap).machine.cursor == m.cursor,
        run(w, m, cap).machine.input == m.input,
        run(w, m, cap).machine.output == m.output,
    decreases w.len(),
{
    if w.len() > 0 {
        let init = w.drop_last();
        assert forall|i: int| 0 <= i < init.len() implies is_write(#[trigger] init[i]) by {
            assert(init[i] == w[i]);
        }
        lemma_writes_run(init, m, cap);
        assert(is_write(w[w.len() - 1]));
        let at = run(init, m, cap).machine;
        lemma_step_write(at, w.last());
        assert(run_atom(w.last(), at, cap) == step(at, w.last()));
    }
}

/// Two writes to different cells of the tape can change places.
pub proof fn lemma_swap_writes(m: Machine, a: SpecAtom, b: SpecAtom)
    requires
        m.wf(),
        is_write(a),
        is_write(b),
        write_offset(a) != write_offset(b),
        step_stays(m, a),
        step_stays(m, b),
    ensures
        step(step(m, a).machine, b) == step(step(m, b).machine, a),
{
    lemma_step_write(m, a);
    lemma_step_write(m, b);
    lemma_step_write(step(m, a).machine, b);
    lemma_step_write(step(m, b).machine, a);
    lemma_cell_on_tape(m.cursor, write_offset(a));
    lemma_cell_on_tape(m.cursor, write_offset(b));
    let i = cell_at(m.cursor, write_offset(a));
    let j = cell_at(m.cursor, write_offset(b));
    assert(written(written(m.tape, i, a), j, b) =~= written(written(m.tape, j, b), i, a));
}

/// All but the last of a run of writes is a run of writes.
proof fn lemma_all_writes_init(w: Seq<SpecAtom>)
    requires
        all_writes(w),
        w.len() > 0,
    ensures
        all_writes(w.drop_last()),
        is_write(w.last()),
{
    let init = w.drop_last();
    assert forall|i: int| 0 <= i < init.len() implies is_write(#[trigger] init[i]) by {
        assert(init[i] == w[i]);
    }
    assert(is_write(w[w.len() - 1]));
}

/// A run of writes with one more write is a run of writes.
proof fn lemma_all_writes_push(w: Seq<SpecAtom>, a: SpecAtom)
    requires
        all_writes(w),
        is_write(a),
    ensures
        all_writes(w.push(a)),
{
    let next = w.push(a);
    assert forall|i: int| 0 <= i < next.len() implies is_write(#[trigger] next[i]) by {
        if i < w.len() {
            assert(next[i] == w[i]);
        }
    }
}

/// A write put in its place by offset does what the write at the end does.
pub proof fn lemma_insert_alike(t: Seq<SpecAtom>, a: SpecAtom, m: Machine, cap: int)
    requires
        m.wf(),
        all_writes(t),
        is_write(a),
        stays(t.push(a), m, cap),
    ensures
        all_writes(insert_by_offset(t, a)),
        stays(insert_by_offset(t, a), m, cap),
        run(insert_by_offset(t, a), m, cap) == run(t.push(a), m, cap),
    decreases t.len(),
{
    lemma_all_writes_push(t, a);
    if t.len() == 0 || write_offset(t.last()) <= write_offset(a) {
    } else {
        let t0 = t.drop_last();
        let l = t.last();
        lemma_all_writes_init(t);
        assert(t0.push(l) =~= t);
        lemma_writes_run(t0, m, cap);
        lemma_writes_run(t, m, cap);
        lemma_run_wf(t0, m, cap);
        let m0 = run(t0, m, cap).machine;
        lemma_run_push(t, a, m, cap);
        lemma_run_push(t0, l, m, cap);
        lemma_run_push(t0, a, m, cap);
        lemma_step_write(m0, l);
        lemma_step_write(m0, a);
        lemma_step_write(step(m0, l).machine, a);
        assert(atom_stays(a, run(t, m, cap).machine, cap));
        assert(atom_stays(l, m0, cap));
        assert(stays(t0.push(a), m, cap));
        lemma_insert_alike(t0, a, m, cap);
        let put = insert_by_offset(t0, a);
        lemma_run_push(put, l, m, cap);
        lemma_all_writes_push(put, l);
        lemma_step_write(step(m0, a).machine, l);
        lemma_swap_writes(m0, a, l);
        assert(run_atom(l, step(m0, a).machine, cap) == step(step(m0, a).machine, l));
        assert(run_atom(a, step(m0, l).machine, cap) == step(step(m0, l).machine, a));
    }
}

/// A run of writes sorted by offset does what the run does.
pub proof fn lemma_sorted_alike(w: Seq<SpecAtom>, m: Machine, cap: int)
    requires
        m.wf(),
        all_writes(w),
        stays(w, m, cap),
    ensures
        all_writes(sorted_by_offset(w)),
        stays(sorted_by_offset(w), m, cap),
        run(sorted_by_offset(w), m, cap) == run(w, m, cap),
    decreases w.len(),
{
    if w.len() > 0 {
        let w0 = w.drop_last();
        let l = w.last();
        lemma_all_writes_init(w);
        lemma_sorted_alike(w0, m, cap);
        let sorted = sorted_by_offset(w0);
        lemma_writes_run(w0, m, cap);
        lemma_writes_run(sorted, m, cap);
        lemma_run_push(sorted, l, m, cap);
        assert(atom_stays(l, run(w0, m, cap).machine, cap));
        lemma_step_write(run(w0, m, cap).machine, l);
        lemma_insert_alike(sorted, l, m, cap);
    }
}

/// The atoms that the sweep of `reorder` has emitted and the writes it
/// holds back do, one after the other, what the atoms swept do.
pub proof fn lemma_reorder_sweep_alike(s: Seq<SpecAtom>, m: Machine, cap: int)
    requires
        m.wf(),
        stays(s, m, cap),
    ensures
        all_writes(reorder_sweep(s).1),
        stays(reorder_sweep(s).0 + reorder_sweep(s).1, m, cap),
        run(reorder_sweep(s).0 + reorder_sweep(s).1, m, cap) == run(s, m, cap),
    decreases s, 0int, 0int,
{
    if s.len() == 0 {
        assert(reorder_sweep(s).0 + reorder_sweep(s).1 =~= s);
    } else {
        let init = s.drop_last();
        let a = s.last();
        lemma_reorder_sweep_alike(init, m, cap);
        lemma_run_wf(init, m, cap);
        let (out0, pend0) = reorder_sweep(init);
        let b = reorder_atom(a);
        let before = run(init, m, cap);
        if before.fault is None {
            assert(atom_stays(a, before.machine, cap));
            match a {
                SpecAtom::Loop(body) => {
                    lemma_reorder_loop_alike(body, before.machine, cap, 0);
                    assert(b == SpecAtom::Loop(reorder_spec(body)));
                },
                _ => {
                    assert(b == a);
                },
            }
            assert(run_atom(b, before.machine, cap) == run_atom(a, before.machine, cap));
            assert(atom_stays(b, before.machine, cap));
        }
        if is_write(b) {
            lemma_all_writes_push(pend0, b);
            assert(out0 + pend0.push(b) =~= (out0 + pend0).push(b));
            lemma_run_push(out0 + pend0, b, m, cap);
        } else {
            let flushed = out0 + sorted_by_offset(pend0);
            lemma_run_concat(out0, pend0, m, cap);
            lemma_run_concat(out0, sorted_by_offset(pend0), m, cap);
            lemma_run_wf(out0, m, cap);
            if run(out0, m, cap).fault is None {
                lemma_sorted_alike(pend0, run(out0, m, cap).machine, cap);
            }
            lemma_run_push(flushed, b, m, cap);
            assert(flushed.push(b) + Seq::<SpecAtom>::empty() =~= flushed.push(b));
        }
    }
}

/// The reordered program does what the program does.
pub proof fn lemma_reorder_alike(s: Seq<SpecAtom>, m: Machine, cap: int)
    requires
        m.wf(),
        stays(s, m, cap),
    ensures
        stays(reorder_spec(s), m, cap),
        run(reorder_spec(s), m, cap) == run(s, m, cap),
    decreases s, 1int, 0int,
{
    lemma_reorder_sweep_alike(s, m, cap);
    let (out, pend) = reorder_sweep(s);
    lemma_run_concat(out, pend, m, cap);
    lemma_run_concat(out, sorted_by_offset(pend), m, cap);
    lemma_run_wf(out, m, cap);
    if run(out, m, cap).fault is None {
        lemma_sorted_alike(pend, run(out, m, cap).machine, cap);
    }
}

/// A loop with its body reordered does what the loop does.
pub proof fn lemma_reorder_loop_alike(body: Seq<SpecAtom>, m: Machine, cap: int, rounds: int)
    requires
        m.wf(),
        loop_stays(body, m, cap, rounds),
    ensures
        loop_stays(reorder_spec(body), m, cap, rounds),
        run_loop(reorder_spec(body), m, cap, rounds) == run_loop(body, m, cap, rounds),
    decreases body, 2int, cap - rounds,
{
    if m.current() != 0 && rounds + 1 < cap {
        lemma_reorder_alike(body, m, cap);
        lemma_run_wf(body, m, cap);
        let after = run(body, m, cap);
        if after.fault is None {
            lemma_reorder_loop_alike(body, after.machine, cap, rounds + 1);
        }
    }
}

} // verus!
