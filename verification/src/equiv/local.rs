//! The passes that rewrite in place: `clean`, `zero_loops` and `combine`
//! put for a piece of a program a piece that does the same.

use vstd::prelude::*;
use crate::equiv::stays::atom_stays;
use crate::equiv::stays::lemma_cell_here;
use crate::equiv::stays::lemma_cell_on_tape;
use crate::equiv::stays::lemma_run_push;
use crate::equiv::stays::lemma_run_wf;
use crate::equiv::stays::loop_stays;
use crate::equiv::stays::on_tape;
use crate::equiv::stays::stays;
use crate::equiv::stays::step_stays;
use crate::ir::SpecAtom;
use crate::equiv::stays::lemma_run_one;
use crate::opt::add_deltas;
use crate::opt::add_offsets;
use crate::opt::clean_atom;
use crate::opt::clean_spec;
use crate::opt::coalesced;
use crate::opt::combine_atom;
use crate::opt::combine_each;
use crate::opt::combine_spec;
use crate::opt::is_decrement;
use crate::opt::is_write;
use crate::opt::write_offset;
use crate::opt::merge;
use crate::opt::zero_atom;
use crate::opt::zero_loops_spec;
use crate::utils::offset_u8_spec;
use crate::semantics::cell_at;
use crate::semantics::done;
use crate::semantics::run;
use crate::semantics::run_atom;
use crate::semantics::run_loop;
use crate::semantics::step;
use crate::semantics::Machine;
use crate::semantics::MEM_SIZE;

verus! {

/// A move by zero and an increment by zero change nothing.
pub proof fn lemma_no_effect(m: Machine, a: SpecAtom)
    requires
        m.wf(),
        clean_atom(a) is None,
    ensures
        step(m, a) == done(m),
        run_atom(a, m, 0) == done(m),
{
    lemma_cell_here(m.cursor);
    match a {
        SpecAtom::IncValue(d, o) => {
            let i = cell_at(m.cursor, o);
            assert(m.tape.update(i, m.tape[i]) =~= m.tape);
        },
        _ => {},
    }
}

/// The cleaned program does what the program does.
pub proof fn lemma_clean_alike(s: Seq<SpecAtom>, m: Machine, cap: int)
    requires
        m.wf(),
        stays(s, m, cap),
    ensures
        stays(clean_spec(s), m, cap),
        run(clean_spec(s), m, cap) == run(s, m, cap),
    decreases s, 0int, 0int,
{
    if s.len() > 0 {
        let init = s.drop_last();
        let a = s.last();
        lemma_clean_alike(init, m, cap);
        lemma_run_wf(init, m, cap);
        let before = run(init, m, cap);
        match clean_atom(a) {
            None => {
                if before.fault is None {
                    lemma_no_effect(before.machine, a);
                    assert(run_atom(a, before.machine, cap) == step(before.machine, a));
                }
            },
            Some(b) => {
                lemma_run_push(clean_spec(init), b, m, cap);
                if before.fault is None {
                    assert(atom_stays(a, before.machine, cap));
                    match a {
                        SpecAtom::Loop(body) => {
                            lemma_clean_loop(body, before.machine, cap, 0);
                        },
                        _ => {},
                    }
                }
            },
        }
    }
}

/// A loop with its body cleaned does what the loop does.
pub proof fn lemma_clean_loop(body: Seq<SpecAtom>, m: Machine, cap: int, rounds: int)
    requires
        m.wf(),
        loop_stays(body, m, cap, rounds),
    ensures
        loop_stays(clean_spec(body), m, cap, rounds),
        run_loop(clean_spec(body), m, cap, rounds) == run_loop(body, m, cap, rounds),
    decreases body, 1int, cap - rounds,
{
    if m.current() != 0 && rounds + 1 < cap {
        lemma_clean_alike(body, m, cap);
        lemma_run_wf(body, m, cap);
        let after = run(body, m, cap);
        if after.fault is None {
            lemma_clean_loop(body, after.machine, cap, rounds + 1);
        }
    }
}

/// A loop that only decrements its cell leaves the cell at zero, if the cap
/// on its rounds is above what a cell can hold.
pub proof fn lemma_countdown(body: Seq<SpecAtom>, m: Machine, cap: int, rounds: int)
    requires
        m.wf(),
        is_decrement(body),
        m.current() + rounds < cap,
    ensures
        run_loop(body, m, cap, rounds) == done(
            Machine { tape: m.tape.update(m.cursor, 0), ..m },
        ),
        loop_stays(body, m, cap, rounds),
    decreases m.current(),
{
    let a = SpecAtom::IncValue(-1i8, 0isize);
    assert(body =~= seq![a]);
    lemma_run_one(a, m, cap);
    lemma_cell_here(m.cursor);
    if m.current() == 0 {
        assert(m.tape.update(m.cursor, 0) =~= m.tape);
    } else {
        let next = step(m, a).machine;
        assert(run(body, m, cap) == done(next));
        assert(next.current() == m.current() - 1);
        lemma_countdown(body, next, cap, rounds + 1);
        assert(next.tape.update(m.cursor, 0) =~= m.tape.update(m.cursor, 0));
    }
}

/// The program with its countdown loops replaced does what the program does.
pub proof fn lemma_zero_loops_alike(s: Seq<SpecAtom>, m: Machine, cap: int)
    requires
        m.wf(),
        cap >= 256,
        stays(s, m, cap),
    ensures
        stays(zero_loops_spec(s), m, cap),
        run(zero_loops_spec(s), m, cap) == run(s, m, cap),
    decreases s, 0int, 0int,
{
    if s.len() > 0 {
        let init = s.drop_last();
        let a = s.last();
        lemma_zero_loops_alike(init, m, cap);
        lemma_run_wf(init, m, cap);
        let before = run(init, m, cap);
        lemma_run_push(zero_loops_spec(init), zero_atom(a), m, cap);
        if before.fault is None {
            assert(atom_stays(a, before.machine, cap));
            match a {
                SpecAtom::Loop(body) => {
                    lemma_zero_loops_loop(body, before.machine, cap, 0);
                    let new_body = zero_loops_spec(body);
                    if is_decrement(new_body) {
                        lemma_countdown(new_body, before.machine, cap, 0);
                        lemma_cell_here(before.machine.cursor);
                        assert(zero_atom(a) == SpecAtom::SetValue(0, 0));
                    } else {
                        assert(zero_atom(a) == SpecAtom::Loop(new_body));
                    }
                },
                _ => {
                    assert(zero_atom(a) == a);
                },
            }
            assert(run_atom(zero_atom(a), before.machine, cap) == run_atom(
                a,
                before.machine,
                cap,
            ));
        }
    }
}

/// A loop with the countdown loops of its body replaced does what the loop does.
pub proof fn lemma_zero_loops_loop(body: Seq<SpecAtom>, m: Machine, cap: int, rounds: int)
    requires
        m.wf(),
        cap >= 256,
        loop_stays(body, m, cap, rounds),
    ensures
        loop_stays(zero_loops_spec(body), m, cap, rounds),
        run_loop(zero_loops_spec(body), m, cap, rounds) == run_loop(body, m, cap, rounds),
    decreases body, 1int, cap - rounds,
{
    if m.current() != 0 && rounds + 1 < cap {
        lemma_zero_loops_alike(body, m, cap);
        lemma_run_wf(body, m, cap);
        let after = run(body, m, cap);
        if after.fault is None {
            lemma_zero_loops_loop(body, after.machine, cap, rounds + 1);
        }
    }
}

/// Two offsets that each lead from a cell of the tape to a cell of the tape
/// add up without wrapping around.
pub proof fn lemma_add_offsets_exact(a: isize, b: isize)
    requires
        -(MEM_SIZE as int) < a < MEM_SIZE,
        -(MEM_SIZE as int) < b < MEM_SIZE,
    ensures
        add_offsets(a, b) == a + b,
{
}

/// Two increments of a byte are one increment by the wrapped sum.
proof fn lemma_inc_twice(v: u8, x: i8, y: i8)
    ensures
        offset_u8_spec(offset_u8_spec(v, x), y) == offset_u8_spec(v, add_deltas(x, y)),
{
}

/// Two moves that stay on the tape are one move by the sum.
proof fn lemma_merge_moves(m: Machine, x: isize, y: isize)
    requires
        m.wf(),
        on_tape(m.cursor, x),
        on_tape(m.cursor + x, y),
    ensures
        cell_at(m.cursor, x) == m.cursor + x,
        cell_at(m.cursor + x, y) == m.cursor + x + y,
        add_offsets(x, y) == x + y,
        cell_at(m.cursor, add_offsets(x, y)) == m.cursor + x + y,
        on_tape(m.cursor, add_offsets(x, y)),
{
    lemma_cell_on_tape(m.cursor, x);
    lemma_cell_on_tape(m.cursor + x, y);
    lemma_add_offsets_exact(x, y);
    lemma_cell_on_tape(m.cursor, add_offsets(x, y));
}

/// Two writes to one cell are one write.
pub proof fn lemma_merge_writes(tape: Seq<u8>, i: int, a: SpecAtom, b: SpecAtom)
    requires
        0 <= i < tape.len(),
        is_write(a),
        is_write(b),
        write_offset(a) == write_offset(b),
    ensures
        merge(a, b) is Some,
        written(written(tape, i, a), i, b) == written(tape, i, merge(a, b)->Some_0),
        write_offset(merge(a, b)->Some_0) == write_offset(a),
        is_write(merge(a, b)->Some_0),
{
    match a {
        SpecAtom::IncValue(x, _) => {
            match b {
                SpecAtom::IncValue(y, _) => {
                    lemma_inc_twice(tape[i], x, y);
                },
                _ => {},
            }
        },
        _ => {},
    }
    assert(written(written(tape, i, a), i, b) =~= written(tape, i, merge(a, b)->Some_0));
}

/// The tape after a write to the cell with index `i`.
pub open spec fn written(tape: Seq<u8>, i: int, a: SpecAtom) -> Seq<u8> {
    match a {
        SpecAtom::SetValue(v, _) => tape.update(i, v),
        SpecAtom::IncValue(d, _) => tape.update(i, offset_u8_spec(tape[i], d)),
        _ => tape,
    }
}

/// A write changes the tape at the cell it goes to and nothing else.
pub proof fn lemma_step_write(m: Machine, a: SpecAtom)
    requires
        is_write(a),
    ensures
        step(m, a) == done(
            Machine { tape: written(m.tape, cell_at(m.cursor, write_offset(a)), a), ..m },
        ),
        step_stays(m, a) == on_tape(m.cursor, write_offset(a)),
{
}

/// Where two atoms can be merged and both stay on the tape, the merged atom
/// does what the two do one after the other.
pub proof fn lemma_merge_steps(m: Machine, a: SpecAtom, b: SpecAtom)
    requires
        m.wf(),
        merge(a, b) is Some,
        step_stays(m, a),
        step_stays(step(m, a).machine, b),
    ensures
        step(m, a).fault is None,
        step(m, merge(a, b)->Some_0) == step(step(m, a).machine, b),
        step_stays(m, merge(a, b)->Some_0),
{
    if a is MovePtr {
        let x = a->MovePtr_0;
        let y = b->MovePtr_0;
        lemma_merge_moves(m, x, y);
    } else {
        assert(is_write(a) && is_write(b) && write_offset(a) == write_offset(b));
        let i = cell_at(m.cursor, write_offset(a));
        lemma_step_write(m, a);
        let mid = step(m, a).machine;
        lemma_step_write(mid, b);
        lemma_merge_writes(m.tape, i, a, b);
        lemma_step_write(m, merge(a, b)->Some_0);
    }
}

/// The last atom of a sweep of `combine` is a merged atom or the last atom swept.
proof fn lemma_coalesced_len(s: Seq<SpecAtom>)
    requires
        s.len() > 0,
    ensures
        coalesced(s).len() > 0,
    decreases s.len(),
{
    if s.len() > 1 {
        lemma_coalesced_len(s.drop_last());
    }
}

/// A sequence with its neighbours merged does what the sequence does.
pub proof fn lemma_coalesced_alike(s: Seq<SpecAtom>, m: Machine, cap: int)
    requires
        m.wf(),
        stays(s, m, cap),
    ensures
        stays(coalesced(s), m, cap),
        run(coalesced(s), m, cap) == run(s, m, cap),
    decreases s.len(),
{
    if s.len() > 0 {
        let init = s.drop_last();
        let a = s.last();
        lemma_coalesced_alike(init, m, cap);
        let kept = coalesced(init);
        if kept.len() == 0 {
            if init.len() > 0 {
                lemma_coalesced_len(init);
            }
            assert(init =~= Seq::<SpecAtom>::empty());
            assert(s =~= seq![a]);
        } else {
            let d = kept.last();
            let head = kept.drop_last();
            assert(head.push(d) =~= kept);
            lemma_run_push(head, d, m, cap);
            match merge(d, a) {
                None => {
                    lemma_run_push(kept, a, m, cap);
                },
                Some(both) => {
                    lemma_run_push(head, both, m, cap);
                    lemma_run_wf(head, m, cap);
                    let at = run(head, m, cap);
                    if at.fault is None {
                        assert(run_atom(d, at.machine, cap) == step(at.machine, d));
                        assert(atom_stays(d, at.machine, cap));
                        assert(run(init, m, cap) == step(at.machine, d));
                        assert(atom_stays(a, step(at.machine, d).machine, cap));
                        lemma_merge_steps(at.machine, d, a);
                        assert(run_atom(both, at.machine, cap) == step(at.machine, both));
                    }
                },
            }
        }
    }
}

/// The program with the bodies of its loops combined does what the program does.
pub proof fn lemma_combine_each_alike(s: Seq<SpecAtom>, m: Machine, cap: int)
    requires
        m.wf(),
        stays(s, m, cap),
    ensures
        stays(combine_each(s), m, cap),
        run(combine_each(s), m, cap) == run(s, m, cap),
    decreases s, 0int, 0int,
{
    if s.len() > 0 {
        let init = s.drop_last();
        let a = s.last();
        lemma_combine_each_alike(init, m, cap);
        lemma_run_wf(init, m, cap);
        let before = run(init, m, cap);
        lemma_run_push(combine_each(init), combine_atom(a), m, cap);
        if before.fault is None {
            assert(atom_stays(a, before.machine, cap));
            match a {
                SpecAtom::Loop(body) => {
                    lemma_combine_loop(body, before.machine, cap, 0);
                    assert(combine_atom(a) == SpecAtom::Loop(combine_spec(body)));
                },
                _ => {
                    assert(combine_atom(a) == a);
                },
            }
            assert(run_atom(combine_atom(a), before.machine, cap) == run_atom(
                a,
                before.machine,
                cap,
            ));
        }
    }
}

/// The combined program does what the program does.
pub proof fn lemma_combine_alike(s: Seq<SpecAtom>, m: Machine, cap: int)
    requires
        m.wf(),
        stays(s, m, cap),
    ensures
        stays(combine_spec(s), m, cap),
        run(combine_spec(s), m, cap) == run(s, m, cap),
    decreases s, 1int, 0int,
{
    lemma_combine_each_alike(s, m, cap);
    lemma_coalesced_alike(combine_each(s), m, cap);
}

/// A loop with its body combined does what the loop does.
pub proof fn lemma_combine_loop(body: Seq<SpecAtom>, m: Machine, cap: int, rounds: int)
    requires
        m.wf(),
        loop_stays(body, m, cap, rounds),
    ensures
        loop_stays(combine_spec(body), m, cap, rounds),
        run_loop(combine_spec(body), m, cap, rounds) == run_loop(body, m, cap, rounds),
    decreases body, 2int, cap - rounds,
{
    if m.current() != 0 && rounds + 1 < cap {
        lemma_combine_alike(body, m, cap);
        lemma_run_wf(body, m, cap);
        let after = run(body, m, cap);
        if after.fault is None {
            lemma_combine_loop(body, after.machine, cap, rounds + 1);
        }
    }
}

} // verus!
