//! `reorder` keeps what a calm program does, and keeps it calm.

use vstd::prelude::*;
use crate::calm::ring::calm;
use crate::calm::ring::calm_atom;
use crate::calm::ring::calm_bound;
use crate::calm::ring::drift;
use crate::calm::ring::lemma_calm_push;
use crate::calm::ring::lemma_ring_apart;
use crate::calm::ring::reach;
use crate::calm::ring::within;
use crate::equiv::local::lemma_step_write;
use crate::equiv::local::written;
use crate::equiv::sorting::all_writes;
use crate::equiv::sorting::lemma_writes_run;
use crate::equiv::stays::lemma_run_concat;
use crate::equiv::stays::lemma_run_push;
use crate::equiv::stays::lemma_run_wf;
use crate::ir::SpecAtom;
use crate::opt::insert_by_offset;
use crate::opt::is_write;
use crate::opt::reorder_atom;
use crate::opt::reorder_spec;
use crate::opt::reorder_sweep;
use crate::opt::sorted_by_offset;
use crate::opt::write_offset;
use crate::semantics::cell_at;
use crate::semantics::run;
use crate::semantics::run_atom;
use crate::semantics::run_loop;
use crate::semantics::step;
use crate::semantics::Machine;

verus! {

/// Whether a sequence holds nothing but writes that reach no further than
/// `bound` from where the cursor was when it had moved by `from`.
pub open spec fn windowed(w: Seq<SpecAtom>, from: int, bound: int) -> bool {
    forall|i: int| 0 <= i < w.len() ==> is_write(#[trigger] w[i]) && within(from + reach(w[i]), bound)
}

/// Two writes to offsets that lie less than the tape apart can change places.
pub proof fn lemma_swap_ring(m: Machine, a: SpecAtom, b: SpecAtom)
    requires
        m.wf(),
        is_write(a),
        is_write(b),
        write_offset(a) != write_offset(b),
        within(write_offset(a) - write_offset(b), 2 * calm_bound()),
    ensures
        step(step(m, a).machine, b) == step(step(m, b).machine, a),
{
    lemma_step_write(m, a);
    lemma_step_write(m, b);
    lemma_step_write(step(m, a).machine, b);
    lemma_step_write(step(m, b).machine, a);
    lemma_ring_apart(m.cursor, write_offset(a), write_offset(b));
    let i = cell_at(m.cursor, write_offset(a));
    let j = cell_at(m.cursor, write_offset(b));
    assert(written(written(m.tape, i, a), j, b) =~= written(written(m.tape, j, b), i, a));
}

/// All but the last of a windowed run.
proof fn lemma_windowed_init(w: Seq<SpecAtom>, from: int, bound: int)
    requires
        windowed(w, from, bound),
        w.len() > 0,
    ensures
        windowed(w.drop_last(), from, bound),
        is_write(w.last()),
        within(from + reach(w.last()), bound),
        all_writes(w),
{
    let init = w.drop_last();
    assert forall|i: int| 0 <= i < init.len() implies is_write(#[trigger] init[i]) && within(
        from + reach(init[i]),
        bound,
    ) by {
        assert(init[i] == w[i]);
    }
    assert(is_write(w[w.len() - 1]));
}

/// A windowed run with one more write in the window.
proof fn lemma_windowed_push(w: Seq<SpecAtom>, a: SpecAtom, from: int, bound: int)
    requires
        windowed(w, from, bound),
        is_write(a),
        within(from + reach(a), bound),
    ensures
        windowed(w.push(a), from, bound),
        all_writes(w.push(a)),
        all_writes(w),
{
    let next = w.push(a);
    assert forall|i: int| 0 <= i < next.len() implies is_write(#[trigger] next[i]) && within(
        from + reach(next[i]),
        bound,
    ) by {
        if i < w.len() {
            assert(next[i] == w[i]);
        }
    }
}

/// A write put in its place by offset does what the write at the end does.
pub proof fn lemma_insert_ring(
    t: Seq<SpecAtom>,
    a: SpecAtom,
    m: Machine,
    cap: int,
    from: int,
    bound: int,
)
    requires
        m.wf(),
        windowed(t, from, bound),
        is_write(a),
        within(from + reach(a), bound),
        0 <= bound <= calm_bound(),
    ensures
        windowed(insert_by_offset(t, a), from, bound),
        run(insert_by_offset(t, a), m, cap) == run(t.push(a), m, cap),
    decreases t.len(),
{
    lemma_windowed_push(t, a, from, bound);
    if t.len() == 0 || write_offset(t.last()) <= write_offset(a) {
    } else {
        let t0 = t.drop_last();
        let l = t.last();
        lemma_windowed_init(t, from, bound);
        assert(t0.push(l) =~= t);
        lemma_windowed_push(t0, a, from, bound);
        lemma_writes_run(t0, m, cap);
        lemma_run_wf(t0, m, cap);
        let m0 = run(t0, m, cap).machine;
        lemma_run_push(t, a, m, cap);
        lemma_run_push(t0, l, m, cap);
        lemma_run_push(t0, a, m, cap);
        lemma_step_write(m0, l);
        lemma_step_write(m0, a);
        lemma_insert_ring(t0, a, m, cap, from, bound);
        let put = insert_by_offset(t0, a);
        lemma_run_push(put, l, m, cap);
        lemma_windowed_push(put, l, from, bound);
        assert(reach(a) == write_offset(a) && reach(l) == write_offset(l));
        lemma_swap_ring(m0, a, l);
        assert(run_atom(l, step(m0, a).machine, cap) == step(step(m0, a).machine, l));
        assert(run_atom(a, step(m0, l).machine, cap) == step(step(m0, l).machine, a));
        assert(run_atom(l, m0, cap) == step(m0, l));
        assert(run_atom(a, m0, cap) == step(m0, a));
    }
}

/// A windowed run sorted by offset does what the run does.
pub proof fn lemma_sorted_ring(w: Seq<SpecAtom>, m: Machine, cap: int, from: int, bound: int)
    requires
        m.wf(),
        windowed(w, from, bound),
        0 <= bound <= calm_bound(),
    ensures
        windowed(sorted_by_offset(w), from, bound),
        run(sorted_by_offset(w), m, cap) == run(w, m, cap),
    decreases w.len(),
{
    if w.len() > 0 {
        let w0 = w.drop_last();
        let l = w.last();
        lemma_windowed_init(w, from, bound);
        lemma_sorted_ring(w0, m, cap, from, bound);
        let sorted = sorted_by_offset(w0);
        lemma_run_push(sorted, l, m, cap);
        lemma_insert_ring(sorted, l, m, cap, from, bound);
    }
}

/// A calm sequence with a windowed run behind it is calm, and the run
/// takes the cursor no further.
pub proof fn lemma_calm_run(x: Seq<SpecAtom>, w: Seq<SpecAtom>, bound: int)
    requires
        calm(x, bound),
        windowed(w, drift(x), bound),
    ensures
        calm(x + w, bound),
        drift(x + w) == drift(x),
    decreases w.len(),
{
    if w.len() == 0 {
        assert(x + w =~= x);
    } else {
        lemma_windowed_init(w, drift(x), bound);
        lemma_calm_run(x, w.drop_last(), bound);
        lemma_calm_push(x + w.drop_last(), w.last(), bound);
        assert((x + w.drop_last()).push(w.last()) =~= x + w);
    }
}

/// What the sweep of `reorder` has emitted from a calm program is calm, the
/// writes it holds back lie in the window, and together they take the
/// cursor as far as the atoms swept.
pub proof fn lemma_reorder_sweep_static(s: Seq<SpecAtom>, bound: int)
    requires
        calm(s, bound),
        0 <= bound <= calm_bound(),
    ensures
        calm(reorder_sweep(s).0, bound),
        windowed(reorder_sweep(s).1, drift(reorder_sweep(s).0), bound),
        drift(reorder_sweep(s).0) == drift(s),
    decreases s, 0int,
{
    if s.len() > 0 {
        let init = s.drop_last();
        let a = s.last();
        lemma_reorder_sweep_static(init, bound);
        let (out0, run0) = reorder_sweep(init);
        let b = reorder_atom(a);
        assert(calm_atom(a, bound));
        match a {
            SpecAtom::Loop(body) => {
                lemma_reorder_static(body, bound);
                assert(b == SpecAtom::Loop(reorder_spec(body)));
            },
            _ => {
                assert(b == a);
            },
        }
        assert(calm_atom(b, bound));
        assert(reach(b) == reach(a));
        if is_write(b) {
            lemma_windowed_push(run0, b, drift(out0), bound);
        } else {
            let m = Machine::start(Seq::empty());
            lemma_sorted_ring(run0, m, 0, drift(out0), bound);
            let sorted = sorted_by_offset(run0);
            lemma_calm_run(out0, sorted, bound);
            lemma_calm_push(out0 + sorted, b, bound);
            assert(reorder_sweep(s).1 =~= Seq::<SpecAtom>::empty());
        }
    }
}

/// What `reorder` gives from a calm program is as calm, and takes the
/// cursor as far.
pub proof fn lemma_reorder_static(s: Seq<SpecAtom>, bound: int)
    requires
        calm(s, bound),
        0 <= bound <= calm_bound(),
    ensures
        calm(reorder_spec(s), bound),
        drift(reorder_spec(s)) == drift(s),
    decreases s, 1int,
{
    lemma_reorder_sweep_static(s, bound);
    let (out, pend) = reorder_sweep(s);
    let m = Machine::start(Seq::empty());
    lemma_sorted_ring(pend, m, 0, drift(out), bound);
    lemma_calm_run(out, sorted_by_offset(pend), bound);
}

/// The atoms that the sweep of `reorder` has emitted and the writes it holds
/// back do, one after the other, what the atoms swept do.
pub proof fn lemma_reorder_sweep_calm(s: Seq<SpecAtom>, m: Machine, cap: int, bound: int)
    requires
        m.wf(),
        calm(s, bound),
        0 <= bound <= calm_bound(),
    ensures
        run(reorder_sweep(s).0 + reorder_sweep(s).1, m, cap) == run(s, m, cap),
    decreases s, 0int, 0int,
{
    if s.len() == 0 {
        assert(reorder_sweep(s).0 + reorder_sweep(s).1 =~= s);
    } else {
        let init = s.drop_last();
        let a = s.last();
        lemma_reorder_sweep_calm(init, m, cap, bound);
        lemma_reorder_sweep_static(init, bound);
        lemma_run_wf(init, m, cap);
        let (out0, pend0) = reorder_sweep(init);
        let b = reorder_atom(a);
        let before = run(init, m, cap);
        assert(calm_atom(a, bound));
        if before.fault is None {
            match a {
                SpecAtom::Loop(body) => {
                    lemma_reorder_loop_calm(body, before.machine, cap, 0, bound);
                    assert(b == SpecAtom::Loop(reorder_spec(body)));
                },
                _ => {
                    assert(b == a);
                },
            }
            assert(run_atom(b, before.machine, cap) == run_atom(a, before.machine, cap));
        }
        if is_write(b) {
            assert(out0 + pend0.push(b) =~= (out0 + pend0).push(b));
            lemma_run_push(out0 + pend0, b, m, cap);
        } else {
            let flushed = out0 + sorted_by_offset(pend0);
            lemma_run_concat(out0, pend0, m, cap);
            lemma_run_concat(out0, sorted_by_offset(pend0), m, cap);
            lemma_run_wf(out0, m, cap);
            if run(out0, m, cap).fault is None {
                lemma_sorted_ring(pend0, run(out0, m, cap).machine, cap, drift(out0), bound);
            }
            lemma_run_push(flushed, b, m, cap);
            assert(flushed.push(b) + Seq::<SpecAtom>::empty() =~= flushed.push(b));
        }
    }
}

/// The reordered program does what the calm program does.
pub proof fn lemma_reorder_calm(s: Seq<SpecAtom>, m: Machine, cap: int, bound: int)
    requires
        m.wf(),
        calm(s, bound),
        0 <= bound <= calm_bound(),
    ensures
        run(reorder_spec(s), m, cap) == run(s, m, cap),
    decreases s, 1int, 0int,
{
    lemma_reorder_sweep_calm(s, m, cap, bound);
    lemma_reorder_sweep_static(s, bound);
    let (out, pend) = reorder_sweep(s);
    lemma_run_concat(out, pend, m, cap);
    lemma_run_concat(out, sorted_by_offset(pend), m, cap);
    lemma_run_wf(out, m, cap);
    if run(out, m, cap).fault is None {
        lemma_sorted_ring(pend, run(out, m, cap).machine, cap, drift(out), bound);
    }
}

/// A loop with its calm body reordered does what the loop does.
pub proof fn lemma_reorder_loop_calm(
    body: Seq<SpecAtom>,
    m: Machine,
    cap: int,
    rounds: int,
    bound: int,
)
    requires
        m.wf(),
        calm(body, bound),
        0 <= bound <= calm_bound(),
    ensures
        run_loop(reorder_spec(body), m, cap, rounds) == run_loop(body, m, cap, rounds),
    decreases body, 2int, cap - rounds,
{
    if m.current() != 0 && rounds + 1 < cap {
        lemma_reorder_calm(body, m, cap, bound);
        lemma_run_wf(body, m, cap);
        let after = run(body, m, cap);
        if after.fault is None {
            lemma_reorder_loop_calm(body, after.machine, cap, rounds + 1, bound);
        }
    }
}

} // verus!
