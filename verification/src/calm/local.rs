//! The passes that rewrite in place keep what a calm program does, and
//! keep it calm.

use vstd::prelude::*;
use crate::calm::ring::calm;
use crate::calm::ring::calm_atom;
use crate::calm::ring::drift;
use crate::calm::ring::lemma_calm_drift;
use crate::calm::ring::lemma_calm_push;
use crate::calm::ring::lemma_ring_here;
use crate::calm::ring::lemma_ring_steps;
use crate::calm::ring::reach;
use crate::calm::ring::within;
use crate::equiv::local::lemma_countdown;
use crate::equiv::local::lemma_merge_writes;
use crate::equiv::local::lemma_no_effect;
use crate::equiv::local::lemma_step_write;
use crate::equiv::stays::lemma_run_push;
use crate::equiv::stays::lemma_run_wf;
use crate::ir::SpecAtom;
use crate::opt::clean_atom;
use crate::opt::clean_spec;
use crate::opt::coalesced;
use crate::opt::combine_atom;
use crate::opt::combine_each;
use crate::opt::combine_spec;
use crate::opt::is_decrement;
use crate::opt::is_write;
use crate::opt::merge;
use crate::opt::write_offset;
use crate::opt::zero_atom;
use crate::opt::zero_loops_spec;
use crate::semantics::cell_at;
use crate::semantics::run;
use crate::semantics::run_atom;
use crate::semantics::run_loop;
use crate::semantics::step;
use crate::semantics::Machine;

verus! {

/// The cleaned program does what the program does.
pub proof fn lemma_clean_runs(s: Seq<SpecAtom>, m: Machine, cap: int)
    requires
        m.wf(),
    ensures
        run(clean_spec(s), m, cap) == run(s, m, cap),
    decreases s, 0int, 0int,
{
    if s.len() > 0 {
        let init = s.drop_last();
        let a = s.last();
        lemma_clean_runs(init, m, cap);
        lemma_run_wf(init, m, cap);
        let before = run(init, m, cap);
        match clean_atom(a) {
            None => {
                if before.fault is None {
                    lemma_no_effect(before.machine, a);
                    assert(run_atom(a, before.machine, cap) == step(before.machine, a));
                }
            },
            Some(b) => {
                lemma_run_push(clean_spec(init), b, m, cap);
                if before.fault is None {
                    match a {
                        SpecAtom::Loop(body) => {
                            lemma_clean_loop_runs(body, before.machine, cap, 0);
                        },
                        _ => {},
                    }
                }
            },
        }
    }
}

/// A loop with its body cleaned does what the loop does.
pub proof fn lemma_clean_loop_runs(body: Seq<SpecAtom>, m: Machine, cap: int, rounds: int)
    requires
        m.wf(),
    ensures
        run_loop(clean_spec(body), m, cap, rounds) == run_loop(body, m, cap, rounds),
    decreases body, 1int, cap - rounds,
{
    if m.current() != 0 && rounds + 1 < cap {
        lemma_clean_runs(body, m, cap);
        lemma_run_wf(body, m, cap);
        let after = run(body, m, cap);
        if after.fault is None {
            lemma_clean_loop_runs(body, after.machine, cap, rounds + 1);
        }
    }
}

/// The cleaned program is as calm as the program, and takes the cursor as far.
pub proof fn lemma_clean_calm(s: Seq<SpecAtom>, bound: int)
    requires
        calm(s, bound),
    ensures
        calm(clean_spec(s), bound),
        drift(clean_spec(s)) == drift(s),
    decreases s,
{
    if s.len() > 0 {
        let init = s.drop_last();
        let a = s.last();
        lemma_clean_calm(init, bound);
        assert(calm_atom(a, bound));
        match clean_atom(a) {
            None => {},
            Some(b) => {
                match a {
                    SpecAtom::Loop(body) => {
                        lemma_clean_calm(body, bound);
                    },
                    _ => {},
                }
                assert(calm_atom(b, bound));
                assert(reach(b) == reach(a));
                lemma_calm_push(clean_spec(init), b, bound);
            },
        }
    }
}

/// The program with its countdown loops replaced does what the program does.
pub proof fn lemma_zero_loops_runs(s: Seq<SpecAtom>, m: Machine, cap: int)
    requires
        m.wf(),
        cap >= 256,
    ensures
        run(zero_loops_spec(s), m, cap) == run(s, m, cap),
    decreases s, 0int, 0int,
{
    if s.len() > 0 {
        let init = s.drop_last();
        let a = s.last();
        lemma_zero_loops_runs(init, m, cap);
        lemma_run_wf(init, m, cap);
        let before = run(init, m, cap);
        lemma_run_push(zero_loops_spec(init), zero_atom(a), m, cap);
        if before.fault is None {
            let at = before.machine;
            match a {
                SpecAtom::Loop(body) => {
                    lemma_zero_loops_loop_runs(body, at, cap, 0);
                    let new_body = zero_loops_spec(body);
                    if is_decrement(new_body) {
                        lemma_countdown(new_body, at, cap, 0);
                        lemma_ring_here(at.cursor);
                        assert(zero_atom(a) == SpecAtom::SetValue(0, 0));
                    } else {
                        assert(zero_atom(a) == SpecAtom::Loop(new_body));
                    }
                },
                _ => {
                    assert(zero_atom(a) == a);
                },
            }
            assert(run_atom(zero_atom(a), at, cap) == run_atom(a, at, cap));
        }
    }
}

/// A loop with the countdown loops of its body replaced does what the loop does.
pub proof fn lemma_zero_loops_loop_runs(body: Seq<SpecAtom>, m: Machine, cap: int, rounds: int)
    requires
        m.wf(),
        cap >= 256,
    ensures
        run_loop(zero_loops_spec(body), m, cap, rounds) == run_loop(body, m, cap, rounds),
    decreases body, 1int, cap - rounds,
{
    if m.current() != 0 && rounds + 1 < cap {
        lemma_zero_loops_runs(body, m, cap);
        lemma_run_wf(body, m, cap);
        let after = run(body, m, cap);
        if after.fault is None {
            lemma_zero_loops_loop_runs(body, after.machine, cap, rounds + 1);
        }
    }
}

/// The program with its countdown loops replaced is as calm as the program,
/// and takes the cursor as far.
pub proof fn lemma_zero_loops_calm(s: Seq<SpecAtom>, bound: int)
    requires
        calm(s, bound),
    ensures
        calm(zero_loops_spec(s), bound),
        drift(zero_loops_spec(s)) == drift(s),
    decreases s,
{
    if s.len() > 0 {
        let init = s.drop_last();
        let a = s.last();
        lemma_zero_loops_calm(init, bound);
        assert(calm_atom(a, bound));
        match a {
            SpecAtom::Loop(body) => {
                lemma_zero_loops_calm(body, bound);
            },
            _ => {},
        }
        let b = zero_atom(a);
        assert(calm_atom(b, bound));
        assert(reach(b) == reach(a));
        assert(!(b is MovePtr) || b == a);
        lemma_calm_push(zero_loops_spec(init), b, bound);
    }
}

/// The greatest bound under which sums of offsets are shown not to wrap around.
pub open spec fn offset_room() -> int {
    0x1000_0000
}

/// Where two atoms can be merged, the merged atom does what the two do one
/// after the other, if their offsets are small.
pub proof fn lemma_merged_step(m: Machine, a: SpecAtom, b: SpecAtom)
    requires
        m.wf(),
        merge(a, b) is Some,
        a is MovePtr ==> within(reach(a), 2 * offset_room()) && within(
            reach(b),
            2 * offset_room(),
        ),
    ensures
        step(m, a).fault is None,
        step(m, merge(a, b)->Some_0) == step(step(m, a).machine, b),
        a is MovePtr ==> reach(merge(a, b)->Some_0) == reach(a) + reach(b),
        !(a is MovePtr) ==> reach(merge(a, b)->Some_0) == reach(a) && reach(b) == reach(a) && !(b
            is MovePtr) && !(merge(a, b)->Some_0 is MovePtr),
        !(merge(a, b)->Some_0 is Loop),
{
    if a is MovePtr {
        lemma_ring_steps(m.cursor, a->MovePtr_0, b->MovePtr_0);
    } else {
        assert(is_write(a) && is_write(b) && write_offset(a) == write_offset(b));
        let i = cell_at(m.cursor, write_offset(a));
        lemma_step_write(m, a);
        let mid = step(m, a).machine;
        lemma_step_write(mid, b);
        lemma_merge_writes(m.tape, i, a, b);
        lemma_step_write(m, merge(a, b)->Some_0);
    }
}

/// A calm sequence with its neighbours merged does what the sequence does,
/// is as calm, and takes the cursor as far.
pub proof fn lemma_coalesced_calm(s: Seq<SpecAtom>, m: Machine, cap: int, bound: int)
    requires
        m.wf(),
        calm(s, bound),
        0 <= bound <= offset_room(),
    ensures
        run(coalesced(s), m, cap) == run(s, m, cap),
        calm(coalesced(s), bound),
        drift(coalesced(s)) == drift(s),
        s.len() > 0 ==> coalesced(s).len() > 0,
    decreases s.len(),
{
    if s.len() > 0 {
        let init = s.drop_last();
        let a = s.last();
        lemma_coalesced_calm(init, m, cap, bound);
        let kept = coalesced(init);
        assert(calm_atom(a, bound));
        if kept.len() == 0 {
            assert(init =~= Seq::<SpecAtom>::empty());
            assert(s =~= seq![a]);
        } else {
            let d = kept.last();
            let head = kept.drop_last();
            assert(head.push(d) =~= kept);
            lemma_run_push(head, d, m, cap);
            lemma_calm_push(head, d, bound);
            lemma_calm_drift(head, bound);
            lemma_calm_drift(init, bound);
            match merge(d, a) {
                None => {
                    lemma_run_push(kept, a, m, cap);
                    lemma_calm_push(kept, a, bound);
                },
                Some(both) => {
                    lemma_run_push(head, both, m, cap);
                    lemma_calm_push(head, both, bound);
                    lemma_run_wf(head, m, cap);
                    let at = run(head, m, cap);
                    lemma_merged_step(at.machine, d, a);
                    assert(calm_atom(both, bound));
                    if at.fault is None {
                        assert(run_atom(d, at.machine, cap) == step(at.machine, d));
                        assert(run(init, m, cap) == step(at.machine, d));
                        assert(run_atom(a, step(at.machine, d).machine, cap) == step(
                            step(at.machine, d).machine,
                            a,
                        ));
                        assert(run_atom(both, at.machine, cap) == step(at.machine, both));
                    }
                },
            }
        }
    }
}

/// The calm program with the bodies of its loops combined does what the
/// program does, is as calm, and takes the cursor as far.
pub proof fn lemma_combine_each_calm(s: Seq<SpecAtom>, m: Machine, cap: int, bound: int)
    requires
        m.wf(),
        calm(s, bound),
        0 <= bound <= offset_room(),
    ensures
        run(combine_each(s), m, cap) == run(s, m, cap),
        calm(combine_each(s), bound),
        drift(combine_each(s)) == drift(s),
    decreases s, 0int, 0int,
{
    if s.len() > 0 {
        let init = s.drop_last();
        let a = s.last();
        lemma_combine_each_calm(init, m, cap, bound);
        lemma_run_wf(init, m, cap);
        let before = run(init, m, cap);
        let b = combine_atom(a);
        lemma_run_push(combine_each(init), b, m, cap);
        lemma_calm_push(combine_each(init), b, bound);
        assert(calm_atom(a, bound));
        match a {
            SpecAtom::Loop(body) => {
                lemma_combine_calm(body, m, cap, bound);
                assert(b == SpecAtom::Loop(combine_spec(body)));
                if before.fault is None {
                    lemma_combine_loop_calm(body, before.machine, cap, 0, bound);
                }
            },
            _ => {
                assert(b == a);
            },
        }
        assert(calm_atom(b, bound));
        assert(reach(b) == reach(a));
        if before.fault is None {
            assert(run_atom(b, before.machine, cap) == run_atom(a, before.machine, cap));
        }
    }
}

/// The combined program does what the calm program does, is as calm, and
/// takes the cursor as far.
pub proof fn lemma_combine_calm(s: Seq<SpecAtom>, m: Machine, cap: int, bound: int)
    requires
        m.wf(),
        calm(s, bound),
        0 <= bound <= offset_room(),
    ensures
        run(combine_spec(s), m, cap) == run(s, m, cap),
        calm(combine_spec(s), bound),
        drift(combine_spec(s)) == drift(s),
    decreases s, 1int, 0int,
{
    lemma_combine_each_calm(s, m, cap, bound);
    lemma_coalesced_calm(combine_each(s), m, cap, bound);
}

/// A loop with its calm body combined does what the loop does.
pub proof fn lemma_combine_loop_calm(
    body: Seq<SpecAtom>,
    m: Machine,
    cap: int,
    rounds: int,
    bound: int,
)
    requires
        m.wf(),
        calm(body, bound),
        0 <= bound <= offset_room(),
    ensures
        run_loop(combine_spec(body), m, cap, rounds) == run_loop(body, m, cap, rounds),
    decreases body, 2int, cap - rounds,
{
    if m.current() != 0 && rounds + 1 < cap {
        lemma_combine_calm(body, m, cap, bound);
        lemma_run_wf(body, m, cap);
        let after = run(body, m, cap);
        if after.fault is None {
            lemma_combine_loop_calm(body, after.machine, cap, rounds + 1, bound);
        }
    }
}

} // verus!
