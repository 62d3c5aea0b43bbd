//! `add_multiply` keeps what a program does: a multiply loop adds to each
//! cell it touches as often as its own cell counts.

use vstd::prelude::*;
use crate::equiv::local::lemma_add_offsets_exact;
use crate::equiv::stays::atom_stays;
use crate::equiv::stays::lemma_cell_here;
use crate::equiv::stays::lemma_cell_on_tape;
use crate::equiv::stays::lemma_run_concat;
use crate::equiv::stays::lemma_run_one;
use crate::equiv::stays::lemma_run_push;
use crate::equiv::stays::lemma_run_wf;
use crate::equiv::stays::loop_stays;
use crate::equiv::stays::stays;
use crate::ir::SpecAtom;
use crate::opt::add_deltas;
use crate::opt::add_multiply_atom;
use crate::opt::add_multiply_spec;
use crate::opt::add_offsets;
use crate::opt::emit_sweep;
use crate::opt::expand_loop;
use crate::opt::is_multiply_loop;
use crate::opt::multiplications;
use crate::opt::only_moves_and_incs;
use crate::opt::tallied;
use crate::opt::tally;
use crate::semantics::cell_at;
use crate::semantics::done;
use crate::semantics::mul_add;
use crate::semantics::run;
use crate::semantics::run_atom;
use crate::semantics::run_loop;
use crate::semantics::step;
use crate::semantics::Machine;
use crate::semantics::MEM_SIZE;
use crate::utils::offset_u8_spec;

verus! {

/// The tape after `n` rounds of a body with the given tally, run with the
/// cursor on cell `c`: each cell has grown by `n` times its net increment.
pub open spec fn bumped(tape: Seq<u8>, c: int, tm: Map<isize, i8>, n: u8) -> Seq<u8> {
    Seq::new(tape.len(), |j: int| mul_add(tape[j], n, tallied(tm, (j - c) as isize)))
}

/// Whether every cell that a tally names lies on the tape, seen from cell `c`.
pub open spec fn keys_on_tape(tm: Map<isize, i8>, c: int) -> bool {
    forall|k: isize| #[trigger] tm.contains_key(k) ==> 0 <= c + k < MEM_SIZE
}

/// All but the last atom of a body of moves and increments is such a body.
pub proof fn lemma_plain_init(body: Seq<SpecAtom>)
    requires
        only_moves_and_incs(body),
        body.len() > 0,
    ensures
        only_moves_and_incs(body.drop_last()),
        body.last() is MovePtr || body.last() is IncValue,
{
    let init = body.drop_last();
    assert forall|i: int| 0 <= i < init.len() implies (#[trigger] init[i] is MovePtr
        || init[i] is IncValue) by {
        assert(init[i] == body[i]);
    }
    assert(body[body.len() - 1] is MovePtr || body[body.len() - 1] is IncValue);
}

/// A cell that grows by zero times an increment, or by a multiple of zero,
/// stays as it is.
pub proof fn lemma_mul_add_zero(x: u8, n: u8, t: i8)
    ensures
        mul_add(x, 0, t) == x,
        mul_add(x, n, 0) == x,
{
    assert(0 * t == 0);
    assert(n * 0 == 0);
}

/// A cell that grows by an increment once is the cell incremented.
pub proof fn lemma_mul_add_once(x: u8, t: i8)
    ensures
        mul_add(x, 1, t) == offset_u8_spec(x, t),
{
    assert(1 * t == t);
}

/// An increment of an incremented cell is one increment by the wrapped sum.
pub proof fn lemma_mul_add_inc(x: u8, t: i8, d: i8)
    ensures
        offset_u8_spec(mul_add(x, 1, t), d) == mul_add(x, 1, add_deltas(t, d)),
{
    assert(1 * t == t);
    assert(1 * add_deltas(t, d) == add_deltas(t, d));
}

/// A cell that has grown by an increment once and then `n` times has grown
/// by it `n + 1` times.
pub proof fn lemma_mul_add_more(x: u8, n: u8, t: i8)
    requires
        n < 255,
    ensures
        mul_add(mul_add(x, 1, t), n, t) == mul_add(x, (n + 1) as u8, t),
{
    let y = n * t;
    assert(1 * t == t);
    assert((n + 1) * t == y + t) by (nonlinear_arith)
        requires
            y == n * t,
    ;
    let z = (x + t) % 256;
    assert((z + y) % 256 == (x + t + y) % 256);
}

/// A cell that counts down from its own value ends at zero.
pub proof fn lemma_mul_add_own(v: u8)
    ensures
        mul_add(v, v, -1i8) == 0,
{
    assert(v * (-1) == -v) by (nonlinear_arith);
}

/// What one round of a body of moves and increments does, if it stays on the
/// tape: it moves the cursor by the displacement of its tally and lets each
/// cell grow by its net increment; all cells of the tally are on the tape.
pub proof fn lemma_round(body: Seq<SpecAtom>, m: Machine, cap: int)
    requires
        m.wf(),
        only_moves_and_incs(body),
        stays(body, m, cap),
    ensures
        run(body, m, cap) == done(
            Machine {
                cursor: m.cursor + tally(body).0,
                tape: bumped(m.tape, m.cursor, tally(body).1, 1),
                ..m
            },
        ),
        0 <= m.cursor + tally(body).0 < MEM_SIZE,
        keys_on_tape(tally(body).1, m.cursor),
    decreases body.len(),
{
    let c = m.cursor;
    if body.len() == 0 {
        assert(bumped(m.tape, c, tally(body).1, 1) =~= m.tape) by {
            assert forall|j: int| 0 <= j < m.tape.len() implies mul_add(
                m.tape[j],
                1,
                tallied(tally(body).1, (j - c) as isize),
            ) == m.tape[j] by {
                lemma_mul_add_zero(m.tape[j], 1, 0);
            }
        }
    } else {
        let init = body.drop_last();
        let a = body.last();
        lemma_plain_init(body);
        lemma_round(init, m, cap);
        let (disp0, tm0) = tally(init);
        let m0 = run(init, m, cap).machine;
        assert(atom_stays(a, m0, cap));
        assert(run_atom(a, m0, cap) == step(m0, a));
        assert(run(body, m, cap) == step(m0, a));
        match a {
            SpecAtom::MovePtr(o) => {
                lemma_cell_on_tape(m0.cursor, o);
                lemma_add_offsets_exact(disp0, o);
            },
            SpecAtom::IncValue(d, o) => {
                lemma_cell_on_tape(m0.cursor, o);
                lemma_add_offsets_exact(o, disp0);
                let key = add_offsets(o, disp0);
                let i = c + key;
                let tm1 = tally(body).1;
                assert(tm1 == tm0.insert(key, add_deltas(tallied(tm0, key), d)));
                assert forall|k: isize| #[trigger] tm1.contains_key(k) implies 0 <= c + k
                    < MEM_SIZE by {
                    if k != key {
                        assert(tm0.contains_key(k));
                    }
                }
                let t1 = m0.tape.update(i, offset_u8_spec(m0.tape[i], d));
                assert(bumped(m.tape, c, tm1, 1) =~= t1) by {
                    assert forall|j: int| 0 <= j < m.tape.len() implies bumped(m.tape, c, tm1, 1)[j]
                        == t1[j] by {
                        let k = (j - c) as isize;
                        if j == i {
                            assert(k == key);
                            lemma_mul_add_inc(m.tape[j], tallied(tm0, key), d);
                        } else {
                            assert(k != key);
                            assert(tallied(tm1, k) == tallied(tm0, k));
                        }
                    }
                }
            },
            _ => {},
        }
    }
}

/// What a multiply loop does, if it stays on the tape and the cap on its
/// rounds is above what a cell can hold: each cell grows by its net increment
/// as often as the loop's own cell counts, and the loop's own cell ends at zero.
pub proof fn lemma_rounds(body: Seq<SpecAtom>, m: Machine, cap: int, rounds: int)
    requires
        m.wf(),
        is_multiply_loop(body),
        loop_stays(body, m, cap, rounds),
        m.current() + rounds < cap,
    ensures
        run_loop(body, m, cap, rounds) == done(
            Machine { tape: bumped(m.tape, m.cursor, tally(body).1, m.current()), ..m },
        ),
        m.current() != 0 ==> keys_on_tape(tally(body).1, m.cursor),
    decreases m.current(),
{
    let c = m.cursor;
    let tm = tally(body).1;
    let v = m.current();
    if v == 0 {
        assert(bumped(m.tape, c, tm, 0) =~= m.tape) by {
            assert forall|j: int| 0 <= j < m.tape.len() implies bumped(m.tape, c, tm, 0)[j]
                == m.tape[j] by {
                lemma_mul_add_zero(m.tape[j], 0, tallied(tm, (j - c) as isize));
            }
        }
    } else {
        lemma_round(body, m, cap);
        let m1 = run(body, m, cap).machine;
        lemma_run_wf(body, m, cap);
        assert((c - c) as isize == 0);
        lemma_mul_add_once(v, -1i8);
        assert(m1.current() == v - 1);
        lemma_rounds(body, m1, cap, rounds + 1);
        assert(bumped(m1.tape, c, tm, m1.current()) =~= bumped(m.tape, c, tm, v)) by {
            assert forall|j: int| 0 <= j < m.tape.len() implies bumped(
                m1.tape,
                c,
                tm,
                m1.current(),
            )[j] == bumped(m.tape, c, tm, v)[j] by {
                lemma_mul_add_more(m.tape[j], (v - 1) as u8, tallied(tm, (j - c) as isize));
            }
        }
    }
}

/// Whether a sequence holds nothing but multiplications.
pub open spec fn all_multiply(s: Seq<SpecAtom>) -> bool {
    forall|i: int| 0 <= i < s.len() ==> #[trigger] s[i] is Multiply
}

/// Multiplications by a zero cell change nothing.
pub proof fn lemma_multiply_by_zero(s: Seq<SpecAtom>, m: Machine, cap: int)
    requires
        m.wf(),
        all_multiply(s),
        m.current() == 0,
    ensures
        run(s, m, cap) == done(m),
        stays(s, m, cap),
    decreases s.len(),
{
    if s.len() > 0 {
        let init = s.drop_last();
        let a = s.last();
        assert forall|i: int| 0 <= i < init.len() implies #[trigger] init[i] is Multiply by {
            assert(init[i] == s[i]);
        }
        assert(s[s.len() - 1] is Multiply);
        lemma_multiply_by_zero(init, m, cap);
        assert(run_atom(a, m, cap) == step(m, a));
        assert(atom_stays(a, m, cap));
        let i = cell_at(m.cursor, a->Multiply_1);
        lemma_mul_add_zero(m.tape[i], 0, a->Multiply_0);
        assert(m.tape.update(i, m.tape[i]) =~= m.tape);
    }
}

/// The tape after the multiplications emitted so far: each cell that the
/// sweep has dealt with, but the loop's own, has grown by the loop's cell
/// times its net increment.
pub open spec fn multiplied(
    tape: Seq<u8>,
    c: int,
    v: u8,
    tm: Map<isize, i8>,
    rest: Map<isize, i8>,
) -> Seq<u8> {
    Seq::new(
        tape.len(),
        |j: int|
            {
                let k = (j - c) as isize;
                if j != c && tm.contains_key(k) && !rest.contains_key(k) {
                    mul_add(tape[j], v, tm[k])
                } else {
                    tape[j]
                }
            },
    )
}

/// The multiplications that the sweep over a body emits do to each cell
/// that the sweep has dealt with what the loop does to it.
pub proof fn lemma_emitted(body: Seq<SpecAtom>, tm: Map<isize, i8>, m: Machine, cap: int)
    requires
        m.wf(),
        keys_on_tape(tm, m.cursor),
    ensures
        emit_sweep(body, tm).0 == tally(body).0,
        all_multiply(emit_sweep(body, tm).2),
        forall|k: isize| #[trigger]
            emit_sweep(body, tm).1.contains_key(k) ==> tm.contains_key(k) && tm[k] == emit_sweep(
                body,
                tm,
            ).1[k] && !tally(body).1.contains_key(k),
        stays(emit_sweep(body, tm).2, m, cap),
        run(emit_sweep(body, tm).2, m, cap) == done(
            Machine {
                tape: multiplied(m.tape, m.cursor, m.current(), tm, emit_sweep(body, tm).1),
                ..m
            },
        ),
    decreases body.len(),
{
    let c = m.cursor;
    let v = m.current();
    if body.len() == 0 {
        assert(multiplied(m.tape, c, v, tm, tm) =~= m.tape);
    } else {
        let init = body.drop_last();
        let a = body.last();
        lemma_emitted(init, tm, m, cap);
        let (disp, rest, out) = emit_sweep(init, tm);
        let (disp1, rest1, out1) = emit_sweep(body, tm);
        let m0 = run(out, m, cap).machine;
        match a {
            SpecAtom::IncValue(_, o) => {
                let key = add_offsets(o, disp);
                if rest.contains_key(key) {
                    assert(rest1 == rest.remove(key));
                    assert(tm.contains_key(key));
                    let i = c + key;
                    if key != 0 && rest[key] != 0 {
                        let mult = SpecAtom::Multiply(rest[key], key);
                        assert(out1 == out.push(mult));
                        lemma_run_push(out, mult, m, cap);
                        lemma_cell_on_tape(c, key);
                        assert(m0.current() == v);
                        assert(run_atom(mult, m0, cap) == step(m0, mult));
                        assert forall|n: int| 0 <= n < out1.len() implies #[trigger] out1[n]
                            is Multiply by {
                            if n < out.len() {
                                assert(out1[n] == out[n]);
                            }
                        }
                        assert(m0.tape.update(i, mul_add(m0.tape[i], v, rest[key])) =~= multiplied(
                            m.tape,
                            c,
                            v,
                            tm,
                            rest1,
                        ));
                    } else {
                        assert(out1 == out);
                        assert(multiplied(m.tape, c, v, tm, rest1) =~= m0.tape) by {
                            assert forall|j: int| 0 <= j < m.tape.len() implies multiplied(
                                m.tape,
                                c,
                                v,
                                tm,
                                rest1,
                            )[j] == m0.tape[j] by {
                                if j == i && j != c {
                                    assert(tm[key] == 0);
                                    lemma_mul_add_zero(m.tape[j], v, 0);
                                }
                            }
                        }
                    }
                }
            },
            _ => {},
        }
    }
}

/// The multiplications of a multiply loop and the store of zero do what the
/// loop does.
pub proof fn lemma_multiply_loop_alike(body: Seq<SpecAtom>, m: Machine, cap: int)
    requires
        m.wf(),
        cap >= 256,
        is_multiply_loop(body),
        loop_stays(body, m, cap, 0),
    ensures
        stays(expand_loop(body), m, cap),
        run(expand_loop(body), m, cap) == run_loop(body, m, cap, 0),
{
    let c = m.cursor;
    let v = m.current();
    let tm = tally(body).1;
    let ms = multiplications(body);
    let zero = SpecAtom::SetValue(0, 0);
    lemma_rounds(body, m, cap, 0);
    lemma_run_push(ms, zero, m, cap);
    lemma_cell_here(c);
    if v == 0 {
        assert(tm.remove(0).insert(0, -1i8) =~= tm);
        lemma_all_multiply(body, tm);
        lemma_multiply_by_zero(ms, m, cap);
        assert(run_atom(zero, m, cap) == step(m, zero));
        assert(m.tape.update(c, 0) =~= bumped(m.tape, c, tm, 0)) by {
            assert forall|j: int| 0 <= j < m.tape.len() implies m.tape.update(c, 0)[j] == bumped(
                m.tape,
                c,
                tm,
                0,
            )[j] by {
                lemma_mul_add_zero(m.tape[j], 0, tallied(tm, (j - c) as isize));
            }
        }
    } else {
        lemma_emitted(body, tm, m, cap);
        let rest = emit_sweep(body, tm).1;
        let m0 = run(ms, m, cap).machine;
        assert(run_atom(zero, m0, cap) == step(m0, zero));
        assert(m0.tape.update(c, 0) =~= bumped(m.tape, c, tm, v)) by {
            assert forall|j: int| 0 <= j < m.tape.len() implies m0.tape.update(c, 0)[j] == bumped(
                m.tape,
                c,
                tm,
                v,
            )[j] by {
                let k = (j - c) as isize;
                if j == c {
                    assert(k == 0);
                    lemma_mul_add_own(v);
                } else if tm.contains_key(k) {
                    assert(!rest.contains_key(k));
                } else {
                    lemma_mul_add_zero(m.tape[j], v, 0);
                }
            }
        }
    }
}

/// The sweep that emits the multiplications emits nothing else.
pub proof fn lemma_all_multiply(body: Seq<SpecAtom>, tm: Map<isize, i8>)
    ensures
        all_multiply(emit_sweep(body, tm).2),
    decreases body.len(),
{
    if body.len() > 0 {
        let init = body.drop_last();
        lemma_all_multiply(init, tm);
        let out = emit_sweep(init, tm).2;
        let out1 = emit_sweep(body, tm).2;
        assert forall|n: int| 0 <= n < out1.len() implies #[trigger] out1[n] is Multiply by {
            if n < out.len() {
                assert(out1[n] == out[n]);
            }
        }
    }
}

/// The program with its multiply loops replaced does what the program does.
pub proof fn lemma_add_multiply_alike(s: Seq<SpecAtom>, m: Machine, cap: int)
    requires
        m.wf(),
        cap >= 256,
        stays(s, m, cap),
    ensures
        stays(add_multiply_spec(s), m, cap),
        run(add_multiply_spec(s), m, cap) == run(s, m, cap),
    decreases s, 0int, 0int,
{
    if s.len() > 0 {
        let init = s.drop_last();
        let a = s.last();
        lemma_add_multiply_alike(init, m, cap);
        lemma_run_wf(init, m, cap);
        let before = run(init, m, cap);
        let piece = add_multiply_atom(a);
        assert(add_multiply_spec(s) == add_multiply_spec(init) + piece);
        lemma_run_concat(add_multiply_spec(init), piece, m, cap);
        if before.fault is None {
            let at = before.machine;
            assert(atom_stays(a, at, cap));
            match a {
                SpecAtom::Loop(body) => {
                    lemma_add_multiply_loop(body, at, cap, 0);
                    let new_body = add_multiply_spec(body);
                    assert(piece == expand_loop(new_body));
                    if is_multiply_loop(new_body) {
                        lemma_multiply_loop_alike(new_body, at, cap);
                    } else {
                        assert(piece == seq![SpecAtom::Loop(new_body)]);
                        lemma_run_one(SpecAtom::Loop(new_body), at, cap);
                    }
                    assert(run(piece, at, cap) == run_loop(body, at, cap, 0));
                },
                _ => {
                    assert(piece == seq![a]);
                    lemma_run_one(a, at, cap);
                },
            }
            assert(run(piece, at, cap) == run_atom(a, at, cap));
            assert(stays(piece, at, cap));
        }
    }
}

/// A loop with the multiply loops of its body replaced does what the loop does.
pub proof fn lemma_add_multiply_loop(body: Seq<SpecAtom>, m: Machine, cap: int, rounds: int)
    requires
        m.wf(),
        cap >= 256,
        loop_stays(body, m, cap, rounds),
    ensures
        loop_stays(add_multiply_spec(body), m, cap, rounds),
        run_loop(add_multiply_spec(body), m, cap, rounds) == run_loop(body, m, cap, rounds),
    decreases body, 1int, cap - rounds,
{
    if m.current() != 0 && rounds + 1 < cap {
        lemma_add_multiply_alike(body, m, cap);
        lemma_run_wf(body, m, cap);
        let after = run(body, m, cap);
        if after.fault is None {
            lemma_add_multiply_loop(body, after.machine, cap, rounds + 1);
        }
    }
}

} // verus!
