//! The programs that the optimizer leaves as they are.

use vstd::prelude::*;
use crate::ir::lemma_loop_model;
use crate::ir::Atom;
use crate::ir::SpecAtom;
use crate::opt::add_deltas;
use crate::opt::add_multiply_atom;
use crate::opt::tally;
use crate::opt::add_multiply_spec;
use crate::opt::add_offsets;
use crate::opt::clean_atom;
use crate::opt::clean_spec;
use crate::opt::coalesced;
use crate::opt::combine_atom;
use crate::opt::combine_each;
use crate::opt::combine_spec;
use crate::opt::expand_loop;
use crate::opt::flush;
use crate::opt::insert_by_offset;
use crate::opt::is_decrement;
use crate::opt::is_multiply_loop;
use crate::opt::is_write;
use crate::opt::merge;
use crate::opt::offset_op_spec;
use crate::opt::offset_step;
use crate::opt::offset_sweep;
use crate::opt::reorder_atom;
use crate::opt::reorder_spec;
use crate::opt::reorder_sweep;
use crate::opt::run_opts_spec;
use crate::opt::sorted_by_offset;
use crate::opt::write_offset;
use crate::opt::zero_atom;
use crate::opt::zero_loops_spec;

verus! {

/// Whether a sequence ends with a move.
pub open spec fn ends_with_move(s: Seq<SpecAtom>) -> bool {
    s.len() > 0 && s.last() is MovePtr
}

/// An atom with a move by zero made explicit wherever `offset_op` emits one
/// inside it.
pub open spec fn flush_atom(a: SpecAtom) -> SpecAtom
    decreases a, 0int,
{
    match a {
        SpecAtom::Loop(body) => SpecAtom::Loop(flushed(body)),
        _ => a,
    }
}

/// A sequence with a move by zero before each loop and each multiplication
/// that no move precedes, and with the bodies of its loops flushed.
pub open spec fn flush_each(s: Seq<SpecAtom>) -> Seq<SpecAtom>
    decreases s, 0int,
{
    if s.len() == 0 {
        Seq::empty()
    } else {
        let a = s.last();
        if (a is Loop || a is Multiply) && !ends_with_move(s.drop_last()) {
            flush_each(s.drop_last()).push(flush(0)).push(flush_atom(a))
        } else {
            flush_each(s.drop_last()).push(flush_atom(a))
        }
    }
}

/// A program with a move, by zero if need be, wherever `offset_op` emits
/// one: before each loop and each multiplication, and at the end of each
/// sequence.
pub open spec fn flushed(s: Seq<SpecAtom>) -> Seq<SpecAtom>
    decreases s, 1int,
{
    if ends_with_move(s) {
        flush_each(s)
    } else {
        flush_each(s).push(flush(0))
    }
}

/// What must hold of two neighbours in a settled program: they cannot be
/// merged; a move is followed by a loop or a multiplication only; of two
/// writes the first goes to the smaller offset.
pub open spec fn settled_pair(a: SpecAtom, b: SpecAtom) -> bool {
    &&& merge(a, b) is None
    &&& a is MovePtr ==> b is Loop || b is Multiply
    &&& is_write(a) && is_write(b) ==> write_offset(a) <= write_offset(b)
}

/// Whether a sequence holds nothing but increments.
pub open spec fn all_incs(s: Seq<SpecAtom>) -> bool {
    forall|i: int| 0 <= i < s.len() ==> #[trigger] s[i] is IncValue
}

/// Whether a loop body does nothing but count cells up and down, its own
/// cell down by one: such a loop is replaced by the optimizer.
pub open spec fn counts_down(body: Seq<SpecAtom>) -> bool {
    all_incs(body) && exists|i: int|
        0 <= i < body.len() && #[trigger] body[i] == SpecAtom::IncValue(-1i8, 0isize)
}

/// What must hold of one atom of a settled program: it is no move by zero
/// and no increment by zero; if it is a loop, its body is settled and is
/// not one that the optimizer replaces.
pub open spec fn settled_atom(a: SpecAtom) -> bool
    decreases a, 0int,
{
    match a {
        SpecAtom::MovePtr(o) => o != 0,
        SpecAtom::IncValue(d, _) => d != 0,
        SpecAtom::Loop(body) => settled(body) && !counts_down(body),
        _ => true,
    }
}

/// A settled program: one in which no pass of the optimizer finds anything
/// to do that the later passes do not undo.
pub open spec fn settled(s: Seq<SpecAtom>) -> bool
    decreases s, 1int,
{
    &&& forall|i: int| 0 <= i < s.len() ==> settled_atom(#[trigger] s[i])
    &&& forall|i: int| 0 <= i < s.len() - 1 ==> settled_pair(#[trigger] s[i], s[i + 1])
}

/// Whether two atoms may be neighbours in a settled program.
pub fn pair_settled(a: &Atom, b: &Atom) -> (r: bool)
    ensures
        r == settled_pair(a.deep_view(), b.deep_view()),
{
    match a {
        Atom::MovePtr(_) => match b {
            Atom::Loop(_) => true,
            Atom::Multiply(_, _) => true,
            _ => false,
        },
        Atom::SetValue(_, o1) => match b {
            Atom::SetValue(_, o2) => *o1 < *o2,
            Atom::IncValue(_, o2) => *o1 < *o2,
            _ => true,
        },
        Atom::IncValue(_, o1) => match b {
            Atom::SetValue(_, o2) => *o1 < *o2,
            Atom::IncValue(_, o2) => *o1 < *o2,
            _ => true,
        },
        _ => true,
    }
}

/// Whether a loop body counts down.
pub fn is_countdown(body: &Vec<Atom>) -> (r: bool)
    ensures
        r == counts_down(body.deep_view()),
{
    let ghost prog = body.deep_view();
    let mut found = false;
    let mut i: usize = 0;
    while i < body.len()
        invariant
            i <= body.len(),
            prog == body.deep_view(),
            forall|k: int| 0 <= k < i ==> #[trigger] prog[k] is IncValue,
            found <==> exists|k: int|
                0 <= k < i && #[trigger] prog[k] == SpecAtom::IncValue(-1i8, 0isize),
        decreases body.len() - i,
    {
        match &body[i] {
            Atom::IncValue(inc, offset) => {
                if *inc == -1 && *offset == 0 {
                    found = true;
                }
            },
            _ => {
                assert(!(prog[i as int] is IncValue));
                return false;
            },
        }
        i += 1;
    }
    found
}

/// Whether a program is settled, so that the optimizer leaves it as it is.
pub fn is_settled(ir: &Vec<Atom>) -> (r: bool)
    ensures
        r == settled(ir.deep_view()),
    decreases ir,
{
    let ghost prog = ir.deep_view();
    let mut i: usize = 0;
    while i < ir.len()
        invariant
            i <= ir.len(),
            prog == ir.deep_view(),
            forall|k: int| 0 <= k < i ==> settled_atom(#[trigger] prog[k]),
            forall|k: int| 0 <= k < i && k < prog.len() - 1 ==> settled_pair(
                #[trigger] prog[k],
                prog[k + 1],
            ),
        decreases ir.len() - i,
    {
        let atom_ok = match &ir[i] {
            Atom::MovePtr(offset) => *offset != 0,
            Atom::IncValue(inc, _) => *inc != 0,
            Atom::Loop(sub) => {
                proof {
                    lemma_loop_model(*sub);
                }
                is_settled(sub) && !is_countdown(sub)
            },
            _ => true,
        };
        if !atom_ok {
            assert(!settled_atom(prog[i as int]));
            return false;
        }
        if i + 1 < ir.len() {
            if !pair_settled(&ir[i], &ir[i + 1]) {
                assert(!settled_pair(prog[i as int], prog[i as int + 1]));
                return false;
            }
        }
        i += 1;
    }
    true
}

/// All but the last atom of a settled program is a settled program.
proof fn lemma_settled_init(s: Seq<SpecAtom>)
    requires
        settled(s),
        s.len() > 0,
    ensures
        settled(s.drop_last()),
        settled_atom(s.last()),
        s.len() > 1 ==> settled_pair(s[s.len() - 2], s.last()),
{
    let init = s.drop_last();
    assert forall|i: int| 0 <= i < init.len() implies settled_atom(#[trigger] init[i]) by {
        assert(init[i] == s[i]);
    }
    assert forall|i: int| 0 <= i < init.len() - 1 implies settled_pair(
        #[trigger] init[i],
        init[i + 1],
    ) by {
        assert(init[i] == s[i]);
        assert(settled_pair(s[i], s[i + 1]));
    }
    if s.len() > 1 {
        assert(settled_pair(s[s.len() - 2], s[s.len() - 2 + 1]));
    }
}

/// A loop body that is a lone decrement counts down.
proof fn lemma_decrement_counts_down(body: Seq<SpecAtom>)
    requires
        is_decrement(body),
    ensures
        counts_down(body),
{
    assert(body[0] == SpecAtom::IncValue(-1i8, 0isize));
}

/// Every atom of a sequence is found, flushed, in the flushed sequence.
proof fn lemma_flush_each_holds(s: Seq<SpecAtom>, i: int)
    requires
        0 <= i < s.len(),
    ensures
        exists|j: int| 0 <= j < flush_each(s).len() && #[trigger] flush_each(s)[j] == flush_atom(s[i]),
    decreases s.len(),
{
    let t = flush_each(s);
    if i == s.len() - 1 {
        assert(t[t.len() - 1] == flush_atom(s[i]));
    } else {
        let init = s.drop_last();
        lemma_flush_each_holds(init, i);
        let j = choose|j: int|
            0 <= j < flush_each(init).len() && #[trigger] flush_each(init)[j] == flush_atom(init[i]);
        assert(t[j] == flush_each(init)[j]);
    }
}

/// A sequence of increments is its own flushed sequence.
pub proof fn lemma_flush_each_incs(s: Seq<SpecAtom>)
    requires
        all_incs(s),
    ensures
        flush_each(s) == s,
    decreases s.len(),
{
    if s.len() > 0 {
        let init = s.drop_last();
        assert forall|i: int| 0 <= i < init.len() implies #[trigger] init[i] is IncValue by {
            assert(init[i] == s[i]);
        }
        lemma_flush_each_incs(init);
        assert(s[s.len() - 1] is IncValue);
        assert(flush_atom(s.last()) == s.last());
        assert(init.push(s.last()) =~= s);
    } else {
        assert(flush_each(s) =~= s);
    }
}

/// The tally of a settled sequence of increments: no displacement, and for
/// each cell it names an increment of the sequence, by the net increment.
pub proof fn lemma_tally_incs(s: Seq<SpecAtom>)
    requires
        all_incs(s),
        settled(s),
    ensures
        tally(s).0 == 0,
        forall|k: isize| #[trigger]
            tally(s).1.contains_key(k) ==> s.len() > 0 && k <= write_offset(s.last()) && exists|
                i: int,
            |
                0 <= i < s.len() && #[trigger] s[i] == SpecAtom::IncValue(tally(s).1[k], k),
    decreases s.len(),
{
    if s.len() > 0 {
        let init = s.drop_last();
        lemma_settled_init(s);
        assert forall|i: int| 0 <= i < init.len() implies #[trigger] init[i] is IncValue by {
            assert(init[i] == s[i]);
        }
        lemma_tally_incs(init);
        assert(s[s.len() - 1] is IncValue);
        let d = s.last()->IncValue_0;
        let o = s.last()->IncValue_1;
        let (disp0, m0) = tally(init);
        let m1 = tally(s).1;
        assert(add_offsets(o, 0) == o);
        if init.len() > 0 {
            assert(init.last() == s[s.len() - 2]);
            assert(init.last() is IncValue);
            assert(write_offset(init.last()) < o);
        }
        assert(!m0.contains_key(o));
        assert(add_deltas(0, d) == d);
        assert(m1 == m0.insert(o, d));
        assert forall|k: isize| #[trigger] m1.contains_key(k) implies k <= write_offset(s.last())
            && exists|i: int| 0 <= i < s.len() && #[trigger] s[i] == SpecAtom::IncValue(m1[k], k) by {
            if k == o {
                assert(s[s.len() - 1] == SpecAtom::IncValue(m1[k], k));
            } else {
                assert(m0.contains_key(k));
                let i = choose|i: int|
                    0 <= i < init.len() && #[trigger] init[i] == SpecAtom::IncValue(m0[k], k);
                assert(s[i] == init[i]);
            }
        }
    }
}

/// The tally of a settled sequence of increments names the cell of each
/// increment, with its delta.
pub proof fn lemma_tally_names_incs(s: Seq<SpecAtom>)
    requires
        all_incs(s),
        settled(s),
    ensures
        forall|i: int|
            0 <= i < s.len() ==> tally(s).1.contains_key((#[trigger] s[i])->IncValue_1) && tally(
                s,
            ).1[s[i]->IncValue_1] == s[i]->IncValue_0,
    decreases s.len(),
{
    if s.len() > 0 {
        let init = s.drop_last();
        lemma_settled_init(s);
        assert forall|i: int| 0 <= i < init.len() implies #[trigger] init[i] is IncValue by {
            assert(init[i] == s[i]);
        }
        lemma_tally_incs(init);
        lemma_tally_names_incs(init);
        assert(s[s.len() - 1] is IncValue);
        let d = s.last()->IncValue_0;
        let o = s.last()->IncValue_1;
        let (disp0, m0) = tally(init);
        let m1 = tally(s).1;
        assert(add_offsets(o, 0) == o);
        if init.len() > 0 {
            assert(init.last() == s[s.len() - 2]);
            assert(init.last() is IncValue);
            assert(write_offset(init.last()) < o);
        }
        assert(!m0.contains_key(o));
        assert(add_deltas(0, d) == d);
        assert(m1 == m0.insert(o, d));
        assert forall|i: int| 0 <= i < s.len() implies m1.contains_key(
            (#[trigger] s[i])->IncValue_1,
        ) && m1[s[i]->IncValue_1] == s[i]->IncValue_0 by {
            if i < init.len() {
                assert(s[i] == init[i]);
                assert(m0.contains_key(init[i]->IncValue_1));
            }
        }
    }
}

/// A settled loop body that counts down is a multiply loop once flushed.
pub proof fn lemma_counts_down_multiply(body: Seq<SpecAtom>)
    requires
        settled(body),
        counts_down(body),
    ensures
        is_multiply_loop(flushed(body)),
{
    lemma_flush_each_incs(body);
    lemma_tally_incs(body);
    lemma_tally_names_incs(body);
    let i = choose|i: int|
        0 <= i < body.len() && #[trigger] body[i] == SpecAtom::IncValue(-1i8, 0isize);
    assert(body[i] is IncValue);
    if body.len() > 0 {
        assert(body[body.len() - 1] is IncValue);
    }
    let end = body.push(flush(0));
    assert(flushed(body) == end);
    assert(end.drop_last() =~= body);
    assert(add_offsets(0, 0) == 0);
    assert(tally(end) == tally(body));
    assert forall|n: int| 0 <= n < end.len() implies (#[trigger] end[n] is MovePtr
        || end[n] is IncValue) by {
        if n < body.len() {
            assert(end[n] == body[n]);
        }
    }
}

/// A settled loop body that is a multiply loop once flushed counts down.
proof fn lemma_multiply_counts_down(body: Seq<SpecAtom>)
    requires
        settled(body),
        is_multiply_loop(flushed(body)),
    ensures
        counts_down(body),
{
    let t = flushed(body);
    assert forall|i: int| 0 <= i < body.len() implies (#[trigger] body[i] is MovePtr
        || body[i] is IncValue) by {
        lemma_flush_each_holds(body, i);
        let j = choose|j: int|
            0 <= j < flush_each(body).len() && #[trigger] flush_each(body)[j] == flush_atom(body[i]);
        assert(t[j] == flush_each(body)[j]);
        assert(t[j] is MovePtr || t[j] is IncValue);
    }
    let init = if body.len() > 0 {
        body.drop_last()
    } else {
        body
    };
    assert forall|i: int| 0 <= i < body.len() - 1 implies #[trigger] body[i] is IncValue by {
        assert(settled_pair(body[i], body[i + 1]));
        assert(body[i + 1] is MovePtr || body[i + 1] is IncValue);
    }
    if body.len() > 0 && body.last() is MovePtr {
        lemma_settled_init(body);
        assert forall|n: int| 0 <= n < init.len() implies #[trigger] init[n] is IncValue by {
            assert(init[n] == body[n]);
        }
        lemma_flush_each_incs(init);
        lemma_tally_incs(init);
        assert(t == init.push(body.last()));
        assert(t.drop_last() =~= init);
        let k = body.last()->MovePtr_0;
        assert(add_offsets(0, k) == k);
        assert(tally(t).0 == k);
        assert(false);
    }
    assert forall|i: int| 0 <= i < body.len() implies #[trigger] body[i] is IncValue by {
        if i == body.len() - 1 {
            assert(body[i] == body.last());
        }
    }
    lemma_flush_each_incs(body);
    lemma_tally_incs(body);
    let end = body.push(flush(0));
    assert(t == end);
    assert(end.drop_last() =~= body);
    assert(add_offsets(0, 0) == 0);
    assert(tally(end).1 == tally(body).1);
    let m = tally(body).1;
    assert(m.contains_key(0));
    let i = choose|i: int|
        0 <= i < body.len() && #[trigger] body[i] == SpecAtom::IncValue(m[0isize], 0isize);
    assert(body[i] == SpecAtom::IncValue(-1i8, 0isize));
}

/// `combine` leaves a settled program as it is.
pub proof fn lemma_combine_settled(s: Seq<SpecAtom>)
    requires
        settled(s),
    ensures
        combine_each(s) == s,
        coalesced(s) == s,
        combine_spec(s) == s,
    decreases s, 1int,
{
    if s.len() > 0 {
        lemma_settled_init(s);
        let init = s.drop_last();
        lemma_combine_settled(init);
        match s.last() {
            SpecAtom::Loop(body) => {
                lemma_combine_settled(body);
            },
            _ => {},
        }
        assert(combine_atom(s.last()) == s.last());
        assert(init.push(s.last()) =~= s);
        if init.len() > 0 {
            assert(init.last() == s[s.len() - 2]);
        }
    }
}

/// `clean` leaves a settled program as it is.
pub proof fn lemma_clean_settled(s: Seq<SpecAtom>)
    requires
        settled(s),
    ensures
        clean_spec(s) == s,
    decreases s,
{
    if s.len() > 0 {
        lemma_settled_init(s);
        let init = s.drop_last();
        lemma_clean_settled(init);
        match s.last() {
            SpecAtom::Loop(body) => {
                lemma_clean_settled(body);
            },
            _ => {},
        }
        assert(clean_atom(s.last()) == Some(s.last()));
        assert(init.push(s.last()) =~= s);
    }
}

/// `zero_loops` leaves a settled program as it is.
pub proof fn lemma_zero_loops_settled(s: Seq<SpecAtom>)
    requires
        settled(s),
    ensures
        zero_loops_spec(s) == s,
    decreases s,
{
    if s.len() > 0 {
        lemma_settled_init(s);
        let init = s.drop_last();
        lemma_zero_loops_settled(init);
        match s.last() {
            SpecAtom::Loop(body) => {
                lemma_zero_loops_settled(body);
                if is_decrement(body) {
                    lemma_decrement_counts_down(body);
                }
            },
            _ => {},
        }
        assert(zero_atom(s.last()) == s.last());
        assert(init.push(s.last()) =~= s);
    }
}

/// The sweep of `offset_op` over a settled program: it has gathered the last
/// move if the program ends with one and nothing else, and it has emitted
/// the flushed program less that move.
proof fn lemma_offset_sweep_settled(s: Seq<SpecAtom>)
    requires
        settled(s),
    ensures
        !ends_with_move(s) ==> offset_sweep(s) == (flush_each(s), 0isize),
        ends_with_move(s) ==> flush_each(s) == offset_sweep(s).0.push(flush(offset_sweep(s).1)),
    decreases s, 0int,
{
    if s.len() > 0 {
        lemma_settled_init(s);
        let init = s.drop_last();
        let a = s.last();
        lemma_offset_sweep_settled(init);
        let (out0, acc0) = offset_sweep(init);
        if init.len() > 0 {
            assert(init.last() == s[s.len() - 2]);
        }
        assert(offset_sweep(s) == offset_step(out0, acc0, a));
        match a {
            SpecAtom::MovePtr(k) => {
                assert(!ends_with_move(init));
                assert(acc0 == 0);
                assert(add_offsets(0, k) == k);
            },
            SpecAtom::SetValue(v, o) => {
                assert(!ends_with_move(init));
                assert(add_offsets(0, o) == o);
            },
            SpecAtom::IncValue(d, o) => {
                assert(!ends_with_move(init));
                assert(add_offsets(0, o) == o);
            },
            SpecAtom::Print(o) => {
                assert(!ends_with_move(init));
                assert(add_offsets(0, o) == o);
            },
            SpecAtom::Read(o) => {
                assert(!ends_with_move(init));
                assert(add_offsets(0, o) == o);
            },
            SpecAtom::Multiply(f, o) => {
                assert(flush_atom(a) == a);
            },
            SpecAtom::Loop(body) => {
                lemma_offset_op_settled(body);
                assert(flush_atom(a) == SpecAtom::Loop(offset_op_spec(body)));
            },
        }
    }
}

/// On a settled program, `offset_op` only makes the moves by zero explicit.
pub proof fn lemma_offset_op_settled(s: Seq<SpecAtom>)
    requires
        settled(s),
    ensures
        offset_op_spec(s) == flushed(s),
    decreases s, 1int,
{
    lemma_offset_sweep_settled(s);
}

/// What each pass makes of a move by zero.
proof fn lemma_move_by_zero()
    ensures
        reorder_atom(SpecAtom::MovePtr(0)) == SpecAtom::MovePtr(0),
        combine_atom(SpecAtom::MovePtr(0)) == SpecAtom::MovePtr(0),
        add_multiply_atom(SpecAtom::MovePtr(0)) == seq![SpecAtom::MovePtr(0)],
        clean_atom(SpecAtom::MovePtr(0)) is None,
        !is_write(SpecAtom::MovePtr(0)),
{
}

/// The last atom of a flushed sequence is the flushed last atom.
proof fn lemma_flush_each_last(s: Seq<SpecAtom>)
    requires
        s.len() > 0,
    ensures
        flush_each(s).len() > 0,
        flush_each(s).last() == flush_atom(s.last()),
        flush_each(s).last() is MovePtr <==> s.last() is MovePtr,
        flush_each(s).last() is Loop <==> s.last() is Loop,
        !(s.last() is Loop) ==> flush_each(s).last() == s.last(),
{
}

/// The sweep of `reorder` over a flushed settled program finds every run of
/// writes in order.
proof fn lemma_reorder_sweep_settled(s: Seq<SpecAtom>)
    requires
        settled(s),
    ensures
        ({
            let (out, run) = reorder_sweep(flush_each(s));
            &&& out + run == flush_each(s)
            &&& sorted_by_offset(run) == run
            &&& run.len() > 0 ==> s.len() > 0 && run.last() == s.last() && is_write(s.last())
        }),
    decreases s, 0int,
{
    let t = flush_each(s);
    if s.len() == 0 {
        assert(reorder_sweep(t).0 + reorder_sweep(t).1 =~= t);
    } else {
        lemma_settled_init(s);
        let init = s.drop_last();
        let a = s.last();
        lemma_reorder_sweep_settled(init);
        let t0 = flush_each(init);
        let (out0, run0) = reorder_sweep(t0);
        if init.len() > 0 {
            assert(init.last() == s[s.len() - 2]);
        }
        let fa = flush_atom(a);
        match a {
            SpecAtom::Loop(body) => {
                lemma_reorder_settled(body);
            },
            _ => {},
        }
        assert(reorder_atom(fa) == fa);
        if (a is Loop || a is Multiply) && !ends_with_move(init) {
            let t1 = t0.push(flush(0));
            assert(t1.drop_last() =~= t0);
            assert(t1.last() == SpecAtom::MovePtr(0));
        lemma_move_by_zero();
            lemma_move_by_zero();
            assert(reorder_sweep(t1) == ((out0 + run0).push(flush(0)), Seq::<SpecAtom>::empty()));
            assert(t.drop_last() =~= t1);
            assert(t.last() == fa);
            assert(sorted_by_offset(Seq::<SpecAtom>::empty()) =~= Seq::<SpecAtom>::empty());
            assert(t1 + Seq::<SpecAtom>::empty() =~= t1);
            assert(reorder_sweep(t).0 + reorder_sweep(t).1 =~= t);
        } else {
            assert(t.drop_last() =~= t0);
            assert(t.last() == fa);
            if is_write(fa) {
                assert(reorder_sweep(t) == (out0, run0.push(fa)));
                assert(run0.push(fa).drop_last() =~= run0);
                assert(sorted_by_offset(run0.push(fa)) == insert_by_offset(run0, fa));
                assert(out0 + run0.push(fa) =~= t);
            } else {
                assert(reorder_sweep(t) == ((out0 + run0).push(fa), Seq::<SpecAtom>::empty()));
                assert(reorder_sweep(t).0 + reorder_sweep(t).1 =~= t);
            }
        }
    }
}

/// `reorder` leaves a flushed settled program as it is.
pub proof fn lemma_reorder_settled(s: Seq<SpecAtom>)
    requires
        settled(s),
    ensures
        reorder_spec(flushed(s)) == flushed(s),
    decreases s, 1int,
{
    lemma_reorder_sweep_settled(s);
    let t = flush_each(s);
    let (out, run) = reorder_sweep(t);
    if !ends_with_move(s) {
        let t1 = t.push(flush(0));
        assert(t1.drop_last() =~= t);
        assert(t1.last() == SpecAtom::MovePtr(0));
        lemma_move_by_zero();
        assert(reorder_sweep(t1) == ((out + run).push(flush(0)), Seq::<SpecAtom>::empty()));
        assert(sorted_by_offset(Seq::<SpecAtom>::empty()) =~= Seq::<SpecAtom>::empty());
        assert(t1 + Seq::<SpecAtom>::empty() =~= t1);
    }
}

/// `add_multiply` leaves a flushed settled program as it is.
pub proof fn lemma_add_multiply_settled(s: Seq<SpecAtom>)
    requires
        settled(s),
    ensures
        add_multiply_spec(flush_each(s)) == flush_each(s),
        add_multiply_spec(flushed(s)) == flushed(s),
    decreases s,
{
    let t = flush_each(s);
    if s.len() > 0 {
        lemma_settled_init(s);
        let init = s.drop_last();
        let a = s.last();
        lemma_add_multiply_settled(init);
        let t0 = flush_each(init);
        let fa = flush_atom(a);
        match a {
            SpecAtom::Loop(body) => {
                lemma_add_multiply_settled(body);
                if is_multiply_loop(flushed(body)) {
                    lemma_multiply_counts_down(body);
                }
                assert(expand_loop(flushed(body)) == seq![fa]);
            },
            _ => {},
        }
        assert(add_multiply_atom(fa) == seq![fa]);
        if (a is Loop || a is Multiply) && !ends_with_move(init) {
            let t1 = t0.push(flush(0));
            assert(t1.drop_last() =~= t0);
            assert(t1.last() == SpecAtom::MovePtr(0));
        lemma_move_by_zero();
            lemma_move_by_zero();
            assert(add_multiply_atom(flush(0)) == seq![flush(0)]);
            assert(add_multiply_spec(t1) =~= t1);
            assert(t.drop_last() =~= t1);
            assert(add_multiply_spec(t) =~= t);
        } else {
            assert(t.drop_last() =~= t0);
            assert(add_multiply_spec(t) =~= t);
        }
        assert(add_multiply_spec(t) == t);
    } else {
        assert(add_multiply_spec(t) =~= t);
    }
    if !ends_with_move(s) {
        let t1 = t.push(flush(0));
        assert(t1.drop_last() =~= t);
        assert(t1.last() == SpecAtom::MovePtr(0));
        lemma_move_by_zero();
        assert(add_multiply_atom(flush(0)) == seq![flush(0)]);
        assert(add_multiply_spec(t1) =~= t1);
    }
}

/// `combine` leaves a flushed settled program as it is.
pub proof fn lemma_combine_flushed(s: Seq<SpecAtom>)
    requires
        settled(s),
    ensures
        combine_each(flush_each(s)) == flush_each(s),
        coalesced(flush_each(s)) == flush_each(s),
        combine_spec(flushed(s)) == flushed(s),
    decreases s,
{
    let t = flush_each(s);
    if s.len() > 0 {
        lemma_settled_init(s);
        let init = s.drop_last();
        let a = s.last();
        lemma_combine_flushed(init);
        let t0 = flush_each(init);
        let fa = flush_atom(a);
        match a {
            SpecAtom::Loop(body) => {
                lemma_combine_flushed(body);
            },
            _ => {},
        }
        assert(combine_atom(fa) == fa);
        if init.len() > 0 {
            assert(init.last() == s[s.len() - 2]);
            lemma_flush_each_last(init);
        }
        if (a is Loop || a is Multiply) && !ends_with_move(init) {
            let t1 = t0.push(flush(0));
            assert(t1.drop_last() =~= t0);
            assert(t1.last() == SpecAtom::MovePtr(0));
        lemma_move_by_zero();
            lemma_move_by_zero();
            assert(combine_each(t1) == t1);
            assert(coalesced(t1) =~= t1);
            assert(t.drop_last() =~= t1);
            assert(combine_each(t) == t);
            assert(coalesced(t) =~= t);
        } else {
            assert(t.drop_last() =~= t0);
            assert(combine_each(t) == t);
            if t0.len() > 0 {
                assert(merge(t0.last(), fa) is None);
            }
            assert(coalesced(t) =~= t);
        }
        assert(combine_each(t) == t);
        assert(coalesced(t) == t);
    } else {
        assert(combine_each(t) =~= t);
        assert(coalesced(t) =~= t);
    }
    if !ends_with_move(s) {
        let t1 = t.push(flush(0));
        assert(t1.drop_last() =~= t);
        assert(t1.last() == SpecAtom::MovePtr(0));
        lemma_move_by_zero();
        if s.len() > 0 {
            lemma_flush_each_last(s);
        }
        assert(combine_each(t1) == t1);
        assert(coalesced(t1) =~= t1);
    }
}

/// `clean` takes the moves by zero out of a flushed settled program again.
pub proof fn lemma_clean_flushed(s: Seq<SpecAtom>)
    requires
        settled(s),
    ensures
        clean_spec(flush_each(s)) == s,
        clean_spec(flushed(s)) == s,
    decreases s,
{
    let t = flush_each(s);
    if s.len() > 0 {
        lemma_settled_init(s);
        let init = s.drop_last();
        let a = s.last();
        lemma_clean_flushed(init);
        let t0 = flush_each(init);
        let fa = flush_atom(a);
        match a {
            SpecAtom::Loop(body) => {
                lemma_clean_flushed(body);
            },
            _ => {},
        }
        assert(clean_atom(fa) == Some(a));
        if (a is Loop || a is Multiply) && !ends_with_move(init) {
            let t1 = t0.push(flush(0));
            assert(t1.drop_last() =~= t0);
            assert(t1.last() == SpecAtom::MovePtr(0));
        lemma_move_by_zero();
            lemma_move_by_zero();
            assert(clean_spec(t1) == init);
            assert(t.drop_last() =~= t1);
        } else {
            assert(t.drop_last() =~= t0);
        }
        assert(init.push(a) =~= s);
        assert(clean_spec(t) == s);
    } else {
        assert(clean_spec(t) =~= s);
    }
    if !ends_with_move(s) {
        let t1 = t.push(flush(0));
        assert(t1.drop_last() =~= t);
        assert(t1.last() == SpecAtom::MovePtr(0));
        lemma_move_by_zero();
    }
}

/// The optimizer leaves every settled program as it is.
pub proof fn law_settled_is_fixed(s: Seq<SpecAtom>)
    requires
        settled(s),
    ensures
        run_opts_spec(s) == s,
{
    lemma_combine_settled(s);
    lemma_clean_settled(s);
    lemma_zero_loops_settled(s);
    lemma_offset_op_settled(s);
    lemma_reorder_settled(s);
    lemma_add_multiply_settled(s);
    lemma_combine_flushed(s);
    lemma_clean_flushed(s);
}

/// Optimizing twice gives what optimizing once gives, for every program whose
/// optimized form is settled.
pub proof fn law_idempotent(s: Seq<SpecAtom>)
    requires
        settled(run_opts_spec(s)),
    ensures
        run_opts_spec(run_opts_spec(s)) == run_opts_spec(s),
{
    law_settled_is_fixed(run_opts_spec(s));
}

} // verus!
