//! Calm programs, and the arithmetic of the ring of cells.

use vstd::prelude::*;
use crate::ir::SpecAtom;
use crate::opt::add_offsets;
use crate::semantics::cell_at;
use crate::semantics::MEM_SIZE;

verus! {

/// The sum of the moves among the atoms of a sequence: how far the sequence
/// takes the cursor, not counting what its loops do.
pub open spec fn drift(s: Seq<SpecAtom>) -> int
    decreases s.len(),
{
    if s.len() == 0 {
        0
    } else {
        drift(s.drop_last()) + match s.last() {
            SpecAtom::MovePtr(o) => o as int,
            _ => 0,
        }
    }
}

/// The offset that an atom reaches for: where it moves the cursor to, or
/// where the cell lies that it reads or writes; a loop reaches for the
/// current cell.
pub open spec fn reach(a: SpecAtom) -> int {
    match a {
        SpecAtom::MovePtr(o) => o as int,
        SpecAtom::SetValue(_, o) => o as int,
        SpecAtom::IncValue(_, o) => o as int,
        SpecAtom::Print(o) => o as int,
        SpecAtom::Read(o) => o as int,
        SpecAtom::Multiply(_, o) => o as int,
        SpecAtom::Loop(_) => 0,
    }
}

/// Whether `x` is no more than `bound` away from zero.
pub open spec fn within(x: int, bound: int) -> bool {
    -bound <= x <= bound
}

/// Whether a program is calm: in each sequence, the program itself and the
/// body of each loop, no atom reaches further than `bound` from where the
/// cursor is when the sequence starts, if the loops of the sequence leave
/// the cursor where it is.
pub open spec fn calm(s: Seq<SpecAtom>, bound: int) -> bool
    decreases s, 1int,
{
    s.len() == 0 || {
        &&& calm(s.drop_last(), bound)
        &&& within(drift(s.drop_last()) + reach(s.last()), bound)
        &&& calm_atom(s.last(), bound)
    }
}

/// Whether the body of a loop is calm.
pub open spec fn calm_atom(a: SpecAtom, bound: int) -> bool
    decreases a, 0int,
{
    match a {
        SpecAtom::Loop(body) => calm(body, bound),
        _ => true,
    }
}

/// The largest bound under which the optimizer is shown to keep what a
/// program does: one less than half the length of the tape.
pub open spec fn calm_bound() -> int {
    14_999
}

/// A calm sequence takes the cursor no further than the bound.
pub proof fn lemma_calm_drift(s: Seq<SpecAtom>, bound: int)
    requires
        calm(s, bound),
        bound >= 0,
    ensures
        within(drift(s), bound),
    decreases s.len(),
{
    if s.len() > 0 {
        lemma_calm_drift(s.drop_last(), bound);
    }
}

/// A calm sequence with one more atom.
pub proof fn lemma_calm_push(s: Seq<SpecAtom>, a: SpecAtom, bound: int)
    ensures
        calm(s.push(a), bound) == (calm(s, bound) && within(drift(s) + reach(a), bound)
            && calm_atom(a, bound)),
        drift(s.push(a)) == drift(s) + match a {
            SpecAtom::MovePtr(o) => o as int,
            _ => 0,
        },
{
    assert(s.push(a).drop_last() =~= s);
}

/// Two steps on the ring are one step by the sum.
pub proof fn lemma_ring_steps(cursor: int, x: isize, y: isize)
    requires
        within(x as int, 0x2000_0000),
        within(y as int, 0x2000_0000),
    ensures
        add_offsets(x, y) == x + y,
        cell_at(cell_at(cursor, x), y) == cell_at(cursor, add_offsets(x, y)),
{
    let m = MEM_SIZE as int;
    let a = cursor + x;
    assert(((a % m) + y) % m == (a + y) % m) by {
        vstd::arithmetic::div_mod::lemma_add_mod_noop(a, y as int, m);
        vstd::arithmetic::div_mod::lemma_add_mod_noop(a % m, y as int, m);
        vstd::arithmetic::div_mod::lemma_mod_twice(a, m);
    }
}

/// A step by zero leads nowhere.
pub proof fn lemma_ring_here(cursor: int)
    requires
        0 <= cursor < MEM_SIZE,
    ensures
        cell_at(cursor, 0) == cursor,
{
}

/// Offsets that differ by less than the length of the tape lead to different cells.
pub proof fn lemma_ring_apart(cursor: int, a: isize, b: isize)
    requires
        a != b,
        -(MEM_SIZE as int) < a - b < MEM_SIZE,
    ensures
        cell_at(cursor, a) != cell_at(cursor, b),
{
    let m = MEM_SIZE as int;
    let x = cursor + a;
    let y = cursor + b;
    if x % m == y % m {
        vstd::arithmetic::div_mod::lemma_fundamental_div_mod(x, m);
        vstd::arithmetic::div_mod::lemma_fundamental_div_mod(y, m);
        let qx = x / m;
        let qy = y / m;
        assert(x - y == m * qx - m * qy);
        assert(m * qx - m * qy == m * (qx - qy)) by (nonlinear_arith);
        let d = qx - qy;
        assert(m * d == a - b);
        if d > 0 {
            assert(m * d >= m) by (nonlinear_arith)
                requires
                    d >= 1,
                    m > 0,
            ;
        } else if d < 0 {
            assert(m * d <= -m) by (nonlinear_arith)
                requires
                    d <= -1,
                    m > 0,
            ;
        }
    }
}

} // verus!
