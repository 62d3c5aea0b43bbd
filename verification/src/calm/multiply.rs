//! `add_multiply` keeps what a calm program does, and keeps it calm under
//! twice the bound.

use vstd::prelude::*;
use crate::calm::ring::calm;
use crate::calm::ring::calm_atom;
use crate::calm::ring::calm_bound;
use crate::calm::ring::drift;
use crate::calm::ring::lemma_calm_drift;
use crate::calm::ring::lemma_calm_push;
use crate::calm::ring::lemma_ring_apart;
use crate::calm::ring::lemma_ring_here;
use crate::calm::ring::lemma_ring_steps;
use crate::calm::ring::reach;
use crate::calm::ring::within;
use crate::equiv::multiply::lemma_all_multiply;
use crate::equiv::multiply::lemma_mul_add_inc;
use crate::equiv::multiply::lemma_mul_add_more;
use crate::equiv::multiply::lemma_mul_add_once;
use crate::equiv::multiply::lemma_mul_add_own;
use crate::equiv::multiply::lemma_mul_add_zero;
use crate::equiv::multiply::lemma_multiply_by_zero;
use crate::equiv::multiply::lemma_plain_init;
use crate::equiv::stays::lemma_run_concat;
use crate::equiv::stays::lemma_run_one;
use crate::equiv::stays::lemma_run_push;
use crate::equiv::stays::lemma_run_wf;
use crate::ir::SpecAtom;
use crate::opt::add_deltas;
use crate::opt::add_multiply_atom;
use crate::opt::add_multiply_spec;
use crate::opt::add_offsets;
use crate::opt::emit_sweep;
use crate::opt::expand_loop;
use crate::opt::is_multiply_loop;
use crate::opt::multiplications;
use crate::opt::only_moves_and_incs;
use crate::opt::tallied;
use crate::opt::tally;
use crate::semantics::cell_at;
use crate::semantics::done;
use crate::semantics::mul_add;
use crate::semantics::run;
use crate::semantics::run_atom;
use crate::semantics::run_loop;
use crate::semantics::step;
use crate::semantics::Machine;
use crate::semantics::MEM_SIZE;
use crate::utils::offset_u8_spec;

verus! {

/// The offset of least size that leads from cell `c` to cell `j`.
pub open spec fn key_at(j: int, c: int) -> isize {
    (((j - c + 15_000) % (MEM_SIZE as int)) - 15_000) as isize
}

/// An offset within the bound is the offset of least size to its cell.
pub proof fn lemma_key_at(c: int, k: isize)
    requires
        within(k as int, calm_bound()),
    ensures
        key_at(cell_at(c, k), c) == k,
{
    let m = MEM_SIZE as int;
    let j = (c + k) % m;
    vstd::arithmetic::div_mod::lemma_fundamental_div_mod(c + k, m);
    let q = (c + k) / m;
    assert(j == c + k - m * q);
    let x = j - c + 15_000;
    assert(x == k + 15_000 - m * q);
    assert(x == m * (-q) + (k + 15_000)) by (nonlinear_arith)
        requires
            x == k + 15_000 - m * q,
    ;
    vstd::arithmetic::div_mod::lemma_fundamental_div_mod_converse(x, m, -q, k + 15_000);
}

/// The offset of least size to a cell leads to the cell.
pub proof fn lemma_key_leads(c: int, j: int)
    requires
        0 <= j < MEM_SIZE,
    ensures
        cell_at(c, key_at(j, c)) == j,
{
    let m = MEM_SIZE as int;
    let x = j - c + 15_000;
    let r = x % m;
    vstd::arithmetic::div_mod::lemma_fundamental_div_mod(x, m);
    let q = x / m;
    let k = r - 15_000;
    assert(c + k == j - m * q);
    assert(c + k == m * (-q) + j) by (nonlinear_arith)
        requires
            c + k == j - m * q,
    ;
    vstd::arithmetic::div_mod::lemma_fundamental_div_mod_converse(c + k, m, -q, j);
}

/// The tape after `n` rounds of a body with the given tally, run with the
/// cursor on cell `c`: each cell has grown by `n` times its net increment.
pub open spec fn grown(tape: Seq<u8>, c: int, tm: Map<isize, i8>, n: u8) -> Seq<u8> {
    Seq::new(tape.len(), |j: int| mul_add(tape[j], n, tallied(tm, key_at(j, c))))
}

/// Whether every cell that a tally names lies within the bound.
pub open spec fn keys_within(tm: Map<isize, i8>, bound: int) -> bool {
    forall|k: isize| #[trigger] tm.contains_key(k) ==> within(k as int, bound)
}

/// The tally of a calm body of moves and increments: its displacement is how
/// far the body takes the cursor, and its cells lie within the bound.
pub proof fn lemma_tally_calm(body: Seq<SpecAtom>, bound: int)
    requires
        only_moves_and_incs(body),
        calm(body, bound),
        0 <= bound <= calm_bound(),
    ensures
        tally(body).0 == drift(body),
        keys_within(tally(body).1, bound),
    decreases body.len(),
{
    if body.len() > 0 {
        let init = body.drop_last();
        let a = body.last();
        lemma_plain_init(body);
        lemma_tally_calm(init, bound);
        lemma_calm_drift(init, bound);
        let (disp0, tm0) = tally(init);
        match a {
            SpecAtom::MovePtr(o) => {
                assert(add_offsets(disp0, o) == disp0 + o);
            },
            SpecAtom::IncValue(d, o) => {
                assert(add_offsets(o, disp0) == o + disp0);
                let key = add_offsets(o, disp0);
                let tm1 = tally(body).1;
                assert(tm1 == tm0.insert(key, add_deltas(tallied(tm0, key), d)));
                assert forall|k: isize| #[trigger] tm1.contains_key(k) implies within(
                    k as int,
                    bound,
                ) by {
                    if k != key {
                        assert(tm0.contains_key(k));
                    }
                }
            },
            _ => {},
        }
    }
}

/// What one round of a calm body of moves and increments does: it moves the
/// cursor by the displacement of its tally and lets each cell grow by its
/// net increment.
pub proof fn lemma_round_ring(body: Seq<SpecAtom>, m: Machine, cap: int, bound: int)
    requires
        m.wf(),
        only_moves_and_incs(body),
        calm(body, bound),
        0 <= bound <= calm_bound(),
    ensures
        run(body, m, cap) == done(
            Machine {
                cursor: cell_at(m.cursor, tally(body).0),
                tape: grown(m.tape, m.cursor, tally(body).1, 1),
                ..m
            },
        ),
    decreases body.len(),
{
    let c = m.cursor;
    if body.len() == 0 {
        lemma_ring_here(c);
        assert(grown(m.tape, c, tally(body).1, 1) =~= m.tape) by {
            assert forall|j: int| 0 <= j < m.tape.len() implies mul_add(
                m.tape[j],
                1,
                tallied(tally(body).1, key_at(j, c)),
            ) == m.tape[j] by {
                lemma_mul_add_zero(m.tape[j], 1, 0);
            }
        }
    } else {
        let init = body.drop_last();
        let a = body.last();
        lemma_plain_init(body);
        lemma_round_ring(init, m, cap, bound);
        lemma_tally_calm(init, bound);
        lemma_tally_calm(body, bound);
        lemma_calm_drift(init, bound);
        let (disp0, tm0) = tally(init);
        let m0 = run(init, m, cap).machine;
        assert(run_atom(a, m0, cap) == step(m0, a));
        assert(run(body, m, cap) == step(m0, a));
        match a {
            SpecAtom::MovePtr(o) => {
                lemma_ring_steps(c, disp0, o);
            },
            SpecAtom::IncValue(d, o) => {
                lemma_ring_steps(c, disp0, o);
                assert(add_offsets(o, disp0) == add_offsets(disp0, o));
                let key = add_offsets(o, disp0);
                let i = cell_at(c, key);
                lemma_key_at(c, key);
                let tm1 = tally(body).1;
                assert(tm1 == tm0.insert(key, add_deltas(tallied(tm0, key), d)));
                let t1 = m0.tape.update(i, offset_u8_spec(m0.tape[i], d));
                assert(grown(m.tape, c, tm1, 1) =~= t1) by {
                    assert forall|j: int| 0 <= j < m.tape.len() implies grown(m.tape, c, tm1, 1)[j]
                        == t1[j] by {
                        let k = key_at(j, c);
                        if j == i {
                            lemma_mul_add_inc(m.tape[j], tallied(tm0, key), d);
                        } else {
                            lemma_key_leads(c, j);
                            assert(k != key);
                            assert(tallied(tm1, k) == tallied(tm0, k));
                        }
                    }
                }
            },
            _ => {},
        }
    }
}

/// What a calm multiply loop does, if the cap on its rounds is above what a
/// cell can hold: each cell grows by its net increment as often as the
/// loop's own cell counts, and the loop's own cell ends at zero.
pub proof fn lemma_rounds_ring(body: Seq<SpecAtom>, m: Machine, cap: int, rounds: int, bound: int)
    requires
        m.wf(),
        is_multiply_loop(body),
        calm(body, bound),
        0 <= bound <= calm_bound(),
        m.current() + rounds < cap,
    ensures
        run_loop(body, m, cap, rounds) == done(
            Machine { tape: grown(m.tape, m.cursor, tally(body).1, m.current()), ..m },
        ),
    decreases m.current(),
{
    let c = m.cursor;
    let tm = tally(body).1;
    let v = m.current();
    if v == 0 {
        assert(grown(m.tape, c, tm, 0) =~= m.tape) by {
            assert forall|j: int| 0 <= j < m.tape.len() implies grown(m.tape, c, tm, 0)[j]
                == m.tape[j] by {
                lemma_mul_add_zero(m.tape[j], 0, tallied(tm, key_at(j, c)));
            }
        }
    } else {
        lemma_round_ring(body, m, cap, bound);
        let m1 = run(body, m, cap).machine;
        lemma_run_wf(body, m, cap);
        lemma_ring_here(c);
        lemma_key_at(c, 0);
        assert(key_at(c, c) == 0);
        lemma_mul_add_once(v, -1i8);
        assert(m1.current() == v - 1);
        lemma_rounds_ring(body, m1, cap, rounds + 1, bound);
        assert(grown(m1.tape, c, tm, m1.current()) =~= grown(m.tape, c, tm, v)) by {
            assert forall|j: int| 0 <= j < m.tape.len() implies grown(m1.tape, c, tm, m1.current())[j]
                == grown(m.tape, c, tm, v)[j] by {
                lemma_mul_add_more(m.tape[j], (v - 1) as u8, tallied(tm, key_at(j, c)));
            }
        }
    }
}

/// The tape after the multiplications emitted so far: each cell that the
/// sweep has dealt with, but the loop's own, has grown by the loop's cell
/// times its net increment.
pub open spec fn multiplied_ring(
    tape: Seq<u8>,
    c: int,
    v: u8,
    tm: Map<isize, i8>,
    rest: Map<isize, i8>,
) -> Seq<u8> {
    Seq::new(
        tape.len(),
        |j: int|
            {
                let k = key_at(j, c);
                if j != c && tm.contains_key(k) && !rest.contains_key(k) {
                    mul_add(tape[j], v, tm[k])
                } else {
                    tape[j]
                }
            },
    )
}

/// The multiplications that the sweep over a body emits do to each cell
/// that the sweep has dealt with what the loop does to it.
pub proof fn lemma_emitted_ring(body: Seq<SpecAtom>, tm: Map<isize, i8>, m: Machine, cap: int)
    requires
        m.wf(),
        keys_within(tm, calm_bound()),
    ensures
        forall|k: isize| #[trigger]
            emit_sweep(body, tm).1.contains_key(k) ==> tm.contains_key(k) && tm[k] == emit_sweep(
                body,
                tm,
            ).1[k] && !tally(body).1.contains_key(k),
        emit_sweep(body, tm).0 == tally(body).0,
        run(emit_sweep(body, tm).2, m, cap) == done(
            Machine {
                tape: multiplied_ring(m.tape, m.cursor, m.current(), tm, emit_sweep(body, tm).1),
                ..m
            },
        ),
    decreases body.len(),
{
    let c = m.cursor;
    let v = m.current();
    if body.len() == 0 {
        assert(multiplied_ring(m.tape, c, v, tm, tm) =~= m.tape);
    } else {
        let init = body.drop_last();
        let a = body.last();
        lemma_emitted_ring(init, tm, m, cap);
        let (disp, rest, out) = emit_sweep(init, tm);
        let (disp1, rest1, out1) = emit_sweep(body, tm);
        let m0 = run(out, m, cap).machine;
        match a {
            SpecAtom::IncValue(_, o) => {
                let key = add_offsets(o, disp);
                if rest.contains_key(key) {
                    assert(rest1 == rest.remove(key));
                    assert(tm.contains_key(key));
                    let i = cell_at(c, key);
                    lemma_key_at(c, key);
                    if key != 0 && rest[key] != 0 {
                        let mult = SpecAtom::Multiply(rest[key], key);
                        assert(out1 == out.push(mult));
                        lemma_run_push(out, mult, m, cap);
                        lemma_ring_apart(c, key, 0);
                        lemma_ring_here(c);
                        assert(m0.current() == v);
                        assert(run_atom(mult, m0, cap) == step(m0, mult));
                        assert(m0.tape.update(i, mul_add(m0.tape[i], v, rest[key]))
                            =~= multiplied_ring(m.tape, c, v, tm, rest1)) by {
                            assert forall|j: int| 0 <= j < m.tape.len() implies m0.tape.update(
                                i,
                                mul_add(m0.tape[i], v, rest[key]),
                            )[j] == multiplied_ring(m.tape, c, v, tm, rest1)[j] by {
                                if j != i {
                                    lemma_key_leads(c, j);
                                }
                            }
                        }
                    } else {
                        assert(out1 == out);
                        assert(multiplied_ring(m.tape, c, v, tm, rest1) =~= m0.tape) by {
                            assert forall|j: int| 0 <= j < m.tape.len() implies multiplied_ring(
                                m.tape,
                                c,
                                v,
                                tm,
                                rest1,
                            )[j] == m0.tape[j] by {
                                lemma_key_leads(c, j);
                                if j == i && j != c {
                                    assert(tm[key] == 0);
                                    lemma_mul_add_zero(m.tape[j], v, 0);
                                }
                            }
                        }
                    }
                }
            },
            _ => {},
        }
    }
}

/// The multiplications of a calm multiply loop and the store of zero do
/// what the loop does.
pub proof fn lemma_multiply_loop_ring(body: Seq<SpecAtom>, m: Machine, cap: int, bound: int)
    requires
        m.wf(),
        cap >= 256,
        is_multiply_loop(body),
        calm(body, bound),
        0 <= bound <= calm_bound(),
    ensures
        run(expand_loop(body), m, cap) == run_loop(body, m, cap, 0),
{
    let c = m.cursor;
    let v = m.current();
    let tm = tally(body).1;
    let ms = multiplications(body);
    let zero = SpecAtom::SetValue(0, 0);
    lemma_rounds_ring(body, m, cap, 0, bound);
    lemma_run_push(ms, zero, m, cap);
    lemma_ring_here(c);
    lemma_key_at(c, 0);
    if v == 0 {
        lemma_all_multiply(body, tm);
        lemma_multiply_by_zero(ms, m, cap);
        assert(run_atom(zero, m, cap) == step(m, zero));
        assert(m.tape.update(c, 0) =~= grown(m.tape, c, tm, 0)) by {
            assert forall|j: int| 0 <= j < m.tape.len() implies m.tape.update(c, 0)[j] == grown(
                m.tape,
                c,
                tm,
                0,
            )[j] by {
                lemma_mul_add_zero(m.tape[j], 0, tallied(tm, key_at(j, c)));
            }
        }
    } else {
        lemma_tally_calm(body, bound);
        lemma_emitted_ring(body, tm, m, cap);
        let rest = emit_sweep(body, tm).1;
        let m0 = run(ms, m, cap).machine;
        assert(run_atom(zero, m0, cap) == step(m0, zero));
        assert(m0.tape.update(c, 0) =~= grown(m.tape, c, tm, v)) by {
            assert forall|j: int| 0 <= j < m.tape.len() implies m0.tape.update(c, 0)[j] == grown(
                m.tape,
                c,
                tm,
                v,
            )[j] by {
                let k = key_at(j, c);
                if j == c {
                    assert(k == 0);
                    lemma_mul_add_own(v);
                } else if tm.contains_key(k) {
                    assert(!rest.contains_key(k));
                } else {
                    lemma_mul_add_zero(m.tape[j], v, 0);
                }
            }
        }
    }
}

/// Whether a sequence holds nothing but atoms that leave the cursor where
/// it is and reach no further than `bound` from where the cursor was when it
/// had moved by `from`.
pub open spec fn still(w: Seq<SpecAtom>, from: int, bound: int) -> bool {
    forall|i: int|
        0 <= i < w.len() ==> !(#[trigger] w[i] is MovePtr) && !(w[i] is Loop) && within(
            from + reach(w[i]),
            bound,
        )
}

/// A calm sequence with atoms behind it that leave the cursor where it is.
pub proof fn lemma_calm_still(x: Seq<SpecAtom>, w: Seq<SpecAtom>, bound: int)
    requires
        calm(x, bound),
        still(w, drift(x), bound),
    ensures
        calm(x + w, bound),
        drift(x + w) == drift(x),
    decreases w.len(),
{
    if w.len() == 0 {
        assert(x + w =~= x);
    } else {
        let w0 = w.drop_last();
        assert forall|i: int| 0 <= i < w0.len() implies !(#[trigger] w0[i] is MovePtr) && !(w0[i]
            is Loop) && within(drift(x) + reach(w0[i]), bound) by {
            assert(w0[i] == w[i]);
        }
        lemma_calm_still(x, w0, bound);
        assert(!(w[w.len() - 1] is MovePtr));
        lemma_calm_push(x + w0, w.last(), bound);
        assert((x + w0).push(w.last()) =~= x + w);
    }
}

/// What the sweep for the multiplications emits: multiplications to cells of the tally.
pub proof fn lemma_emit_atoms(body: Seq<SpecAtom>, tm: Map<isize, i8>)
    ensures
        forall|k: isize| #[trigger] emit_sweep(body, tm).1.contains_key(k) ==> tm.contains_key(k),
        forall|n: int|
            0 <= n < emit_sweep(body, tm).2.len() ==> (#[trigger] emit_sweep(body, tm).2[n])
                is Multiply && tm.contains_key(emit_sweep(body, tm).2[n]->Multiply_1),
    decreases body.len(),
{
    if body.len() > 0 {
        let init = body.drop_last();
        lemma_emit_atoms(init, tm);
        let (disp, rest, out) = emit_sweep(init, tm);
        let out1 = emit_sweep(body, tm).2;
        match body.last() {
            SpecAtom::IncValue(_, o) => {
                let key = add_offsets(o, disp);
                if rest.contains_key(key) && key != 0 && rest[key] != 0 {
                    let mult = SpecAtom::Multiply(rest[key], key);
                    assert(out1 == out.push(mult));
                    assert forall|n: int| 0 <= n < out1.len() implies (#[trigger] out1[n]) is Multiply
                        && tm.contains_key(out1[n]->Multiply_1) by {
                        if n < out.len() {
                            assert(out1[n] == out[n]);
                        }
                    }
                } else {
                    assert(out1 == out);
                }
            },
            _ => {
                assert(out1 == out);
            },
        }
    }
}

/// A program that `add_multiply` turns into moves and increments only is
/// left as it is.
pub proof fn lemma_plain_same(s: Seq<SpecAtom>)
    requires
        only_moves_and_incs(add_multiply_spec(s)),
    ensures
        add_multiply_spec(s) == s,
    decreases s.len(),
{
    if s.len() > 0 {
        let init = s.drop_last();
        let a = s.last();
        let head = add_multiply_spec(init);
        let piece = add_multiply_atom(a);
        let t = add_multiply_spec(s);
        assert(t == head + piece);
        assert forall|i: int| 0 <= i < head.len() implies (#[trigger] head[i] is MovePtr
            || head[i] is IncValue) by {
            assert(t[i] == head[i]);
        }
        lemma_plain_same(init);
        match a {
            SpecAtom::Loop(body) => {
                let new_body = add_multiply_spec(body);
                if is_multiply_loop(new_body) {
                    let ms = multiplications(new_body);
                    assert(piece == ms.push(SpecAtom::SetValue(0, 0)));
                    assert(t[(head.len() + ms.len()) as int] == SpecAtom::SetValue(0, 0));
                } else {
                    assert(piece == seq![SpecAtom::Loop(new_body)]);
                    assert(t[head.len() as int] == SpecAtom::Loop(new_body));
                }
                assert(false);
            },
            _ => {
                assert(piece == seq![a]);
                assert(init + seq![a] =~= s);
            },
        }
    }
}

/// What `add_multiply` gives from a calm program is calm under twice the
/// bound, and takes the cursor as far.
pub proof fn lemma_add_multiply_static(s: Seq<SpecAtom>, bound: int)
    requires
        calm(s, bound),
        0 <= bound <= calm_bound(),
    ensures
        calm(add_multiply_spec(s), 2 * bound),
        drift(add_multiply_spec(s)) == drift(s),
    decreases s,
{
    if s.len() > 0 {
        let init = s.drop_last();
        let a = s.last();
        lemma_add_multiply_static(init, bound);
        lemma_calm_drift(init, bound);
        let head = add_multiply_spec(init);
        let piece = add_multiply_atom(a);
        assert(add_multiply_spec(s) == head + piece);
        assert(calm_atom(a, bound));
        match a {
            SpecAtom::Loop(body) => {
                lemma_add_multiply_static(body, bound);
                let new_body = add_multiply_spec(body);
                if is_multiply_loop(new_body) {
                    lemma_plain_same(body);
                    lemma_tally_calm(new_body, bound);
                    let tm = tally(new_body).1;
                    lemma_emit_atoms(new_body, tm);
                    let ms = multiplications(new_body);
                    assert(piece == ms.push(SpecAtom::SetValue(0, 0)));
                    assert forall|i: int| 0 <= i < piece.len() implies !(#[trigger] piece[i]
                        is MovePtr) && !(piece[i] is Loop) && within(
                        drift(head) + reach(piece[i]),
                        2 * bound,
                    ) by {
                        if i < ms.len() {
                            assert(piece[i] == ms[i]);
                            assert(tm.contains_key(ms[i]->Multiply_1));
                        }
                    }
                    lemma_calm_still(head, piece, 2 * bound);
                } else {
                    assert(piece == seq![SpecAtom::Loop(new_body)]);
                    lemma_calm_push(head, SpecAtom::Loop(new_body), 2 * bound);
                    assert(head.push(SpecAtom::Loop(new_body)) =~= head + piece);
                    assert(calm_atom(SpecAtom::Loop(new_body), 2 * bound));
                }
            },
            _ => {
                assert(piece == seq![a]);
                lemma_calm_push(head, a, 2 * bound);
                assert(head.push(a) =~= head + piece);
                assert(calm_atom(a, 2 * bound));
            },
        }
    }
}

/// The program with its multiply loops replaced does what the calm program does.
pub proof fn lemma_add_multiply_calm(s: Seq<SpecAtom>, m: Machine, cap: int, bound: int)
    requires
        m.wf(),
        cap >= 256,
        calm(s, bound),
        0 <= bound <= calm_bound(),
    ensures
        run(add_multiply_spec(s), m, cap) == run(s, m, cap),
    decreases s, 0int, 0int,
{
    if s.len() > 0 {
        let init = s.drop_last();
        let a = s.last();
        lemma_add_multiply_calm(init, m, cap, bound);
        lemma_run_wf(init, m, cap);
        let before = run(init, m, cap);
        let piece = add_multiply_atom(a);
        assert(add_multiply_spec(s) == add_multiply_spec(init) + piece);
        lemma_run_concat(add_multiply_spec(init), piece, m, cap);
        assert(calm_atom(a, bound));
        if before.fault is None {
            let at = before.machine;
            match a {
                SpecAtom::Loop(body) => {
                    lemma_add_multiply_loop_calm(body, at, cap, 0, bound);
                    let new_body = add_multiply_spec(body);
                    assert(piece == expand_loop(new_body));
                    if is_multiply_loop(new_body) {
                        lemma_plain_same(body);
                        lemma_multiply_loop_ring(new_body, at, cap, bound);
                    } else {
                        assert(piece == seq![SpecAtom::Loop(new_body)]);
                        lemma_run_one(SpecAtom::Loop(new_body), at, cap);
                    }
                    assert(run(piece, at, cap) == run_loop(body, at, cap, 0));
                },
                _ => {
                    assert(piece == seq![a]);
                    lemma_run_one(a, at, cap);
                },
            }
            assert(run(piece, at, cap) == run_atom(a, at, cap));
        }
    }
}

/// A loop with the multiply loops of its calm body replaced does what the loop does.
pub proof fn lemma_add_multiply_loop_calm(
    body: Seq<SpecAtom>,
    m: Machine,
    cap: int,
    rounds: int,
    bound: int,
)
    requires
        m.wf(),
        cap >= 256,
        calm(body, bound),
        0 <= bound <= calm_bound(),
    ensures
        run_loop(add_multiply_spec(body), m, cap, rounds) == run_loop(body, m, cap, rounds),
    decreases body, 1int, cap - rounds,
{
    if m.current() != 0 && rounds + 1 < cap {
        lemma_add_multiply_calm(body, m, cap, bound);
        lemma_run_wf(body, m, cap);
        let after = run(body, m, cap);
        if after.fault is None {
            lemma_add_multiply_loop_calm(body, after.machine, cap, rounds + 1, bound);
        }
    }
}

} // verus!
