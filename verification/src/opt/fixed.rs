//! Every program that the optimizer leaves as it is, is settled.

use vstd::prelude::*;
use crate::equiv::sorting::all_writes;
use crate::ir::SpecAtom;
use crate::opt::add_multiply_atom;
use crate::opt::add_multiply_spec;
use crate::opt::clean_atom;
use crate::opt::clean_spec;
use crate::opt::coalesced;
use crate::opt::combine_atom;
use crate::opt::combine_each;
use crate::opt::combine_spec;
use crate::opt::emit_sweep;
use crate::opt::insert_by_offset;
use crate::opt::is_decrement;
use crate::opt::is_multiply_loop;
use crate::opt::is_write;
use crate::opt::merge;
use crate::opt::multiplications;
use crate::opt::offset_op_spec;
use crate::opt::offset_step;
use crate::opt::offset_sweep;
use crate::opt::reorder_atom;
use crate::opt::reorder_spec;
use crate::opt::reorder_sweep;
use crate::opt::run_opts_spec;
use crate::opt::sorted_by_offset;
use crate::opt::write_offset;
use crate::opt::zero_atom;
use crate::opt::zero_loops_spec;
use crate::opt::settled::counts_down;
use crate::opt::settled::flushed;
use crate::opt::settled::lemma_clean_settled;
use crate::opt::settled::lemma_combine_settled;
use crate::opt::settled::lemma_counts_down_multiply;
use crate::opt::settled::lemma_offset_op_settled;
use crate::opt::settled::lemma_reorder_settled;
use crate::opt::settled::law_settled_is_fixed;
use crate::opt::settled::settled;
use crate::opt::settled::settled_atom;
use crate::opt::settled::settled_pair;

verus! {

/// The weight of an atom: nothing for a move, two more than its body for a
/// loop, one for any other atom.
pub open spec fn atom_weight(a: SpecAtom) -> nat
    decreases a,
{
    match a {
        SpecAtom::MovePtr(_) => 0,
        SpecAtom::Loop(body) => 2 + weight(body),
        _ => 1,
    }
}

/// The weight of a program: the sum of the weights of its atoms. No pass of
/// the optimizer makes a program heavier, and every merge of two writes and
/// every replacement of a loop makes it lighter.
pub open spec fn weight(s: Seq<SpecAtom>) -> nat
    decreases s,
{
    if s.len() == 0 {
        0
    } else {
        weight(s.drop_last()) + atom_weight(s.last())
    }
}

/// The weight of a sequence with one more atom.
pub proof fn lemma_weight_push(s: Seq<SpecAtom>, a: SpecAtom)
    ensures
        weight(s.push(a)) == weight(s) + atom_weight(a),
{
    assert(s.push(a).drop_last() =~= s);
}

/// The weight of two sequences one after the other.
pub proof fn lemma_weight_concat(a: Seq<SpecAtom>, b: Seq<SpecAtom>)
    ensures
        weight(a + b) == weight(a) + weight(b),
    decreases b.len(),
{
    if b.len() == 0 {
        assert(a + b =~= a);
    } else {
        lemma_weight_concat(a, b.drop_last());
        assert((a + b).drop_last() =~= a + b.drop_last());
    }
}

/// Whether an atom is an increment by zero.
pub open spec fn zero_inc(a: SpecAtom) -> bool {
    a matches SpecAtom::IncValue(d, _) && d == 0
}

/// `clean` makes no program heavier; a program that it leaves as heavy holds
/// no increment by zero among its atoms.
pub proof fn lemma_clean_weight(s: Seq<SpecAtom>)
    ensures
        weight(clean_spec(s)) <= weight(s),
        weight(clean_spec(s)) == weight(s) ==> forall|i: int|
            0 <= i < s.len() ==> !zero_inc(#[trigger] s[i]),
    decreases s,
{
    if s.len() > 0 {
        let init = s.drop_last();
        let a = s.last();
        lemma_clean_weight(init);
        match a {
            SpecAtom::Loop(body) => {
                lemma_clean_weight(body);
                assert(clean_atom(a) == Some(SpecAtom::Loop(clean_spec(body))));
            },
            _ => {},
        }
        match clean_atom(a) {
            Some(b) => {
                lemma_weight_push(clean_spec(init), b);
                assert(atom_weight(b) <= atom_weight(a));
                assert(clean_spec(s) == clean_spec(init).push(b));
            },
            None => {
                assert(clean_spec(s) == clean_spec(init));
                assert(zero_inc(a) || atom_weight(a) == 0);
            },
        }
        if zero_inc(a) {
            assert(clean_atom(a) is None);
            assert(atom_weight(a) == 1);
        }
        if weight(clean_spec(s)) == weight(s) {
            assert(!zero_inc(a));
            assert forall|i: int| 0 <= i < s.len() implies !zero_inc(#[trigger] s[i]) by {
                if i < init.len() {
                    assert(s[i] == init[i]);
                }
            }
        }
    }
}

/// Whether two writes go to the same offset, so that `combine` merges them
/// where they are neighbours.
pub open spec fn clash(a: SpecAtom, b: SpecAtom) -> bool {
    is_write(a) && is_write(b) && write_offset(a) == write_offset(b)
}

/// Whether `c` can stand for `a` after merges: a move for a move, a write to
/// the same offset for a write, and the atom itself for any other atom.
pub open spec fn stands_for(c: SpecAtom, a: SpecAtom) -> bool {
    if a is MovePtr {
        c is MovePtr
    } else if is_write(a) {
        is_write(c) && write_offset(c) == write_offset(a)
    } else {
        c == a
    }
}

/// What `merge` merges: two moves to a move, two writes to the same offset
/// to a write to that offset, and nothing else.
pub proof fn lemma_merge_kinds(a: SpecAtom, b: SpecAtom)
    ensures
        merge(a, b) is Some <==> (a is MovePtr && b is MovePtr) || clash(a, b),
        merge(a, b) is Some && a is MovePtr ==> merge(a, b)->Some_0 is MovePtr,
        clash(a, b) ==> is_write(merge(a, b)->Some_0) && write_offset(merge(a, b)->Some_0)
            == write_offset(a),
{
}

/// The sweep of `combine` makes no sequence heavier; a sequence that it
/// leaves as heavy holds no two neighbours that write to the same offset.
pub proof fn lemma_coalesced_weight(s: Seq<SpecAtom>)
    ensures
        s.len() > 0 ==> coalesced(s).len() > 0 && stands_for(coalesced(s).last(), s.last()),
        weight(coalesced(s)) <= weight(s),
        weight(coalesced(s)) == weight(s) ==> forall|i: int|
            0 <= i < s.len() - 1 ==> !clash(#[trigger] s[i], s[i + 1]),
    decreases s.len(),
{
    if s.len() > 0 {
        let init = s.drop_last();
        let a = s.last();
        lemma_coalesced_weight(init);
        let kept = coalesced(init);
        if kept.len() == 0 {
            assert(init.len() == 0);
            assert(seq![a].drop_last() =~= Seq::<SpecAtom>::empty());
        } else {
            let d = kept.last();
            assert(weight(kept) == weight(kept.drop_last()) + atom_weight(d));
            assert(init.last() == s[s.len() - 2]);
            lemma_merge_kinds(d, a);
            match merge(d, a) {
                Some(both) => {
                    lemma_weight_push(kept.drop_last(), both);
                    assert(atom_weight(both) == atom_weight(d));
                    if !(d is MovePtr) {
                        assert(atom_weight(a) == 1);
                    }
                },
                None => {
                    lemma_weight_push(kept, a);
                },
            }
            if weight(coalesced(s)) == weight(s) {
                assert(merge(d, a) is None || (d is MovePtr && a is MovePtr));
                assert(!clash(init.last(), a));
                assert forall|i: int| 0 <= i < s.len() - 1 implies !clash(
                    #[trigger] s[i],
                    s[i + 1],
                ) by {
                    if i < init.len() - 1 {
                        assert(s[i] == init[i]);
                        assert(!clash(init[i], init[i + 1]));
                    }
                }
            }
        }
    }
}

/// `combine` keeps the atoms in their places before it sweeps.
pub proof fn lemma_combine_each_places(s: Seq<SpecAtom>)
    ensures
        combine_each(s).len() == s.len(),
        forall|i: int| 0 <= i < s.len() ==> #[trigger] combine_each(s)[i] == combine_atom(s[i]),
    decreases s.len(),
{
    if s.len() > 0 {
        lemma_combine_each_places(s.drop_last());
        assert forall|i: int| 0 <= i < s.len() implies #[trigger] combine_each(s)[i]
            == combine_atom(s[i]) by {
            if i < s.len() - 1 {
                assert(combine_each(s)[i] == combine_each(s.drop_last())[i]);
                assert(s[i] == s.drop_last()[i]);
            }
        }
    }
}

/// Whether `combine` leaves the body of every loop among the atoms as heavy as it is.
pub open spec fn bodies_keep_weight_combined(s: Seq<SpecAtom>) -> bool {
    forall|i: int|
        0 <= i < s.len() ==> ((#[trigger] s[i]) matches SpecAtom::Loop(body) ==> weight(
            combine_spec(body),
        ) == weight(body))
}

/// Combining the bodies of the loops makes no program heavier.
pub proof fn lemma_combine_each_weight(s: Seq<SpecAtom>)
    ensures
        weight(combine_each(s)) <= weight(s),
        weight(combine_each(s)) == weight(s) ==> bodies_keep_weight_combined(s),
    decreases s, 0int,
{
    if s.len() > 0 {
        let init = s.drop_last();
        let a = s.last();
        lemma_combine_each_weight(init);
        lemma_weight_push(combine_each(init), combine_atom(a));
        match a {
            SpecAtom::Loop(body) => {
                lemma_combine_weight(body);
                assert(combine_atom(a) == SpecAtom::Loop(combine_spec(body)));
            },
            _ => {
                assert(combine_atom(a) == a);
            },
        }
        assert(atom_weight(combine_atom(a)) <= atom_weight(a));
        if weight(combine_each(s)) == weight(s) {
            assert forall|i: int| 0 <= i < s.len() implies ((#[trigger] s[i]) matches SpecAtom::Loop(
                body,
            ) ==> weight(combine_spec(body)) == weight(body)) by {
                if i < init.len() {
                    assert(s[i] == init[i]);
                }
            }
        }
    }
}

/// `combine` makes no program heavier; a program that it leaves as heavy
/// holds no two neighbours that write to the same offset, and the bodies of
/// its loops are left as heavy too.
pub proof fn lemma_combine_weight(s: Seq<SpecAtom>)
    ensures
        weight(combine_spec(s)) <= weight(s),
        weight(combine_spec(s)) == weight(s) ==> {
            &&& weight(combine_each(s)) == weight(s)
            &&& bodies_keep_weight_combined(s)
            &&& forall|i: int| 0 <= i < s.len() - 1 ==> !clash(#[trigger] s[i], s[i + 1])
        },
    decreases s, 1int,
{
    lemma_combine_each_weight(s);
    lemma_coalesced_weight(combine_each(s));
    lemma_combine_each_places(s);
    if weight(combine_spec(s)) == weight(s) {
        let t = combine_each(s);
        assert forall|i: int| 0 <= i < s.len() - 1 implies !clash(#[trigger] s[i], s[i + 1]) by {
            assert(!clash(t[i], t[i + 1]));
            assert(t[i] == combine_atom(s[i]));
            assert(t[i + 1] == combine_atom(s[i + 1]));
        }
    }
}

/// Whether `zero_loops` leaves every loop among the atoms as it is.
pub open spec fn loops_kept_by_zero_loops(s: Seq<SpecAtom>) -> bool {
    forall|i: int|
        0 <= i < s.len() ==> ((#[trigger] s[i]) matches SpecAtom::Loop(body) ==> zero_loops_spec(
            body,
        ) == body && !is_decrement(body))
}

/// `zero_loops` makes no program heavier, and it leaves a program as it is
/// if it leaves it as heavy.
pub proof fn lemma_zero_loops_weight(s: Seq<SpecAtom>)
    ensures
        weight(zero_loops_spec(s)) <= weight(s),
        weight(zero_loops_spec(s)) == weight(s) ==> zero_loops_spec(s) == s
            && loops_kept_by_zero_loops(s),
    decreases s,
{
    if s.len() > 0 {
        let init = s.drop_last();
        let a = s.last();
        lemma_zero_loops_weight(init);
        lemma_weight_push(zero_loops_spec(init), zero_atom(a));
        match a {
            SpecAtom::Loop(body) => {
                lemma_zero_loops_weight(body);
                if is_decrement(zero_loops_spec(body)) {
                    assert(zero_atom(a) == SpecAtom::SetValue(0, 0));
                } else {
                    assert(zero_atom(a) == SpecAtom::Loop(zero_loops_spec(body)));
                }
            },
            _ => {
                assert(zero_atom(a) == a);
            },
        }
        assert(atom_weight(zero_atom(a)) <= atom_weight(a));
        if weight(zero_loops_spec(s)) == weight(s) {
            assert(zero_atom(a) == a);
            assert(init.push(a) =~= s);
            assert forall|i: int| 0 <= i < s.len() implies ((#[trigger] s[i]) matches SpecAtom::Loop(
                body,
            ) ==> zero_loops_spec(body) == body && !is_decrement(body)) by {
                if i < init.len() {
                    assert(s[i] == init[i]);
                }
            }
        }
    }
}

/// `offset_op` leaves every program as heavy as it is.
pub proof fn lemma_offset_op_weight(s: Seq<SpecAtom>)
    ensures
        weight(offset_sweep(s).0) == weight(s),
        weight(offset_op_spec(s)) == weight(s),
    decreases s,
{
    if s.len() > 0 {
        let init = s.drop_last();
        let a = s.last();
        lemma_offset_op_weight(init);
        let (out0, acc0) = offset_sweep(init);
        assert(offset_sweep(s) == offset_step(out0, acc0, a));
        let out1 = offset_sweep(s).0;
        match a {
            SpecAtom::MovePtr(_) => {},
            SpecAtom::Multiply(_, _) => {
                lemma_weight_push(out0, SpecAtom::MovePtr(acc0));
                lemma_weight_push(out0.push(SpecAtom::MovePtr(acc0)), a);
            },
            SpecAtom::Loop(body) => {
                lemma_offset_op_weight(body);
                lemma_weight_push(out0, SpecAtom::MovePtr(acc0));
                lemma_weight_push(
                    out0.push(SpecAtom::MovePtr(acc0)),
                    SpecAtom::Loop(offset_op_spec(body)),
                );
            },
            _ => {
                lemma_weight_push(out0, out1.last());
                assert(out1 == out0.push(out1.last()));
            },
        }
    }
    lemma_weight_push(offset_sweep(s).0, SpecAtom::MovePtr(offset_sweep(s).1));
}

/// A write put in its place by offset weighs what it weighs at the end.
pub proof fn lemma_insert_weight(t: Seq<SpecAtom>, a: SpecAtom)
    ensures
        weight(insert_by_offset(t, a)) == weight(t) + atom_weight(a),
    decreases t.len(),
{
    if t.len() == 0 || write_offset(t.last()) <= write_offset(a) {
        lemma_weight_push(t, a);
    } else {
        lemma_insert_weight(t.drop_last(), a);
        lemma_weight_push(insert_by_offset(t.drop_last(), a), t.last());
    }
}

/// A sorted run is as heavy as the run.
pub proof fn lemma_sorted_weight(w: Seq<SpecAtom>)
    ensures
        weight(sorted_by_offset(w)) == weight(w),
    decreases w.len(),
{
    if w.len() > 0 {
        lemma_sorted_weight(w.drop_last());
        lemma_insert_weight(sorted_by_offset(w.drop_last()), w.last());
    }
}

/// `reorder` leaves every program as heavy as it is.
pub proof fn lemma_reorder_weight(s: Seq<SpecAtom>)
    ensures
        weight(reorder_sweep(s).0) + weight(reorder_sweep(s).1) == weight(s),
        weight(reorder_spec(s)) == weight(s),
    decreases s,
{
    if s.len() > 0 {
        let init = s.drop_last();
        let a = s.last();
        lemma_reorder_weight(init);
        let (out0, run0) = reorder_sweep(init);
        let b = reorder_atom(a);
        match a {
            SpecAtom::Loop(body) => {
                lemma_reorder_weight(body);
                assert(b == SpecAtom::Loop(reorder_spec(body)));
            },
            _ => {
                assert(b == a);
            },
        }
        assert(atom_weight(b) == atom_weight(a));
        if is_write(b) {
            lemma_weight_push(run0, b);
        } else {
            lemma_sorted_weight(run0);
            lemma_weight_concat(out0, sorted_by_offset(run0));
            lemma_weight_push(out0 + sorted_by_offset(run0), b);
        }
    }
    lemma_sorted_weight(reorder_sweep(s).1);
    lemma_weight_concat(reorder_sweep(s).0, sorted_by_offset(reorder_sweep(s).1));
}

/// The multiplications emitted for a body weigh no more than the body.
pub proof fn lemma_emit_weight(body: Seq<SpecAtom>, tm: Map<isize, i8>)
    ensures
        weight(emit_sweep(body, tm).2) <= weight(body),
    decreases body.len(),
{
    if body.len() > 0 {
        let init = body.drop_last();
        lemma_emit_weight(init, tm);
        let out0 = emit_sweep(init, tm).2;
        let out1 = emit_sweep(body, tm).2;
        let (disp, rest, out) = emit_sweep(init, tm);
        assert(weight(body) == weight(init) + atom_weight(body.last()));
        match body.last() {
            SpecAtom::IncValue(_, o) => {
                let key = crate::opt::add_offsets(o, disp);
                if rest.contains_key(key) && key != 0 && rest[key] != 0 {
                    let mult = SpecAtom::Multiply(rest[key], key);
                    assert(out1 == out0.push(mult));
                    lemma_weight_push(out0, mult);
                } else {
                    assert(out1 == out0);
                }
            },
            _ => {
                assert(out1 == out0);
            },
        }
    }
}

/// Whether `add_multiply` leaves every loop among the atoms as it is.
pub open spec fn loops_kept_by_add_multiply(s: Seq<SpecAtom>) -> bool {
    forall|i: int|
        0 <= i < s.len() ==> ((#[trigger] s[i]) matches SpecAtom::Loop(body) ==> add_multiply_spec(
            body,
        ) == body && !is_multiply_loop(body))
}

/// `add_multiply` makes no program heavier, and it leaves a program as it is
/// if it leaves it as heavy.
pub proof fn lemma_add_multiply_weight(s: Seq<SpecAtom>)
    ensures
        weight(add_multiply_spec(s)) <= weight(s),
        weight(add_multiply_spec(s)) == weight(s) ==> add_multiply_spec(s) == s
            && loops_kept_by_add_multiply(s),
    decreases s,
{
    if s.len() > 0 {
        let init = s.drop_last();
        let a = s.last();
        lemma_add_multiply_weight(init);
        let piece = add_multiply_atom(a);
        lemma_weight_concat(add_multiply_spec(init), piece);
        match a {
            SpecAtom::Loop(body) => {
                lemma_add_multiply_weight(body);
                let new_body = add_multiply_spec(body);
                if is_multiply_loop(new_body) {
                    let ms = multiplications(new_body);
                    lemma_emit_weight(new_body, crate::opt::tally(new_body).1);
                    lemma_weight_push(ms, SpecAtom::SetValue(0, 0));
                    assert(piece == ms.push(SpecAtom::SetValue(0, 0)));
                    assert(weight(piece) < atom_weight(a));
                } else {
                    assert(piece == seq![SpecAtom::Loop(new_body)]);
                    lemma_weight_push(Seq::<SpecAtom>::empty(), SpecAtom::Loop(new_body));
                    assert(Seq::<SpecAtom>::empty().push(SpecAtom::Loop(new_body)) =~= piece);
                }
            },
            _ => {
                assert(piece == seq![a]);
                lemma_weight_push(Seq::<SpecAtom>::empty(), a);
                assert(Seq::<SpecAtom>::empty().push(a) =~= piece);
            },
        }
        assert(weight(piece) <= atom_weight(a));
        if weight(add_multiply_spec(s)) == weight(s) {
            assert(piece == seq![a]);
            assert(init + seq![a] =~= s);
            assert forall|i: int| 0 <= i < s.len() implies ((#[trigger] s[i]) matches SpecAtom::Loop(
                body,
            ) ==> add_multiply_spec(body) == body && !is_multiply_loop(body)) by {
                if i < init.len() {
                    assert(s[i] == init[i]);
                }
            }
        }
    }
}

/// What holds of two neighbours where moves are tied: a move is followed by
/// a loop or a multiplication only.
pub open spec fn tied_pair(a: SpecAtom, b: SpecAtom) -> bool {
    a is MovePtr ==> b is Loop || b is Multiply
}

/// Whether every move stands at the end of its sequence or before a loop or
/// a multiplication, in the program and in the bodies of its loops.
pub open spec fn tied(s: Seq<SpecAtom>) -> bool
    decreases s, 1int,
{
    &&& forall|i: int| 0 <= i < s.len() ==> tied_atom(#[trigger] s[i])
    &&& forall|i: int| 0 <= i < s.len() - 1 ==> tied_pair(#[trigger] s[i], s[i + 1])
}

/// Whether the moves in the body of a loop are tied.
pub open spec fn tied_atom(a: SpecAtom) -> bool
    decreases a, 0int,
{
    match a {
        SpecAtom::Loop(body) => tied(body),
        _ => true,
    }
}

/// What holds of two neighbours in a tidy program: a move is followed by a
/// loop or a multiplication only, and of two writes the first goes to the
/// offset that is not greater.
pub open spec fn tidy_pair(a: SpecAtom, b: SpecAtom) -> bool {
    &&& tied_pair(a, b)
    &&& is_write(a) && is_write(b) ==> write_offset(a) <= write_offset(b)
}

/// Whether moves are tied and neighbouring writes are in order, in the
/// program and in the bodies of its loops.
pub open spec fn tidy(s: Seq<SpecAtom>) -> bool
    decreases s, 1int,
{
    &&& forall|i: int| 0 <= i < s.len() ==> tidy_atom(#[trigger] s[i])
    &&& forall|i: int| 0 <= i < s.len() - 1 ==> tidy_pair(#[trigger] s[i], s[i + 1])
}

/// Whether the body of a loop is tidy.
pub open spec fn tidy_atom(a: SpecAtom) -> bool
    decreases a, 0int,
{
    match a {
        SpecAtom::Loop(body) => tidy(body),
        _ => true,
    }
}

/// A sequence with tied moves and one more atom that is tied to its last.
proof fn lemma_tied_push(t: Seq<SpecAtom>, a: SpecAtom)
    requires
        tied(t),
        tied_atom(a),
        t.len() > 0 ==> tied_pair(t.last(), a),
    ensures
        tied(t.push(a)),
{
    let n = t.push(a);
    assert forall|i: int| 0 <= i < n.len() implies tied_atom(#[trigger] n[i]) by {
        if i < t.len() {
            assert(n[i] == t[i]);
        }
    }
    assert forall|i: int| 0 <= i < n.len() - 1 implies tied_pair(#[trigger] n[i], n[i + 1]) by {
        if i < t.len() - 1 {
            assert(n[i] == t[i]);
            assert(tied_pair(t[i], t[i + 1]));
        }
    }
}

/// All but the last atom of a sequence with tied moves.
proof fn lemma_tied_init(s: Seq<SpecAtom>)
    requires
        tied(s),
        s.len() > 0,
    ensures
        tied(s.drop_last()),
        tied_atom(s.last()),
        s.len() > 1 ==> tied_pair(s[s.len() - 2], s.last()),
{
    let init = s.drop_last();
    assert forall|i: int| 0 <= i < init.len() implies tied_atom(#[trigger] init[i]) by {
        assert(init[i] == s[i]);
    }
    assert forall|i: int| 0 <= i < init.len() - 1 implies tied_pair(
        #[trigger] init[i],
        init[i + 1],
    ) by {
        assert(init[i] == s[i]);
        assert(tied_pair(s[i], s[i + 1]));
    }
    if s.len() > 1 {
        assert(tied_pair(s[s.len() - 2], s[s.len() - 2 + 1]));
    }
}

/// What `offset_op` emits has its moves tied, and so far no move at its end.
proof fn lemma_offset_sweep_tied(s: Seq<SpecAtom>)
    ensures
        tied(offset_sweep(s).0),
        offset_sweep(s).0.len() > 0 ==> !(offset_sweep(s).0.last() is MovePtr),
    decreases s, 0int,
{
    if s.len() > 0 {
        let init = s.drop_last();
        let a = s.last();
        lemma_offset_sweep_tied(init);
        let (out0, acc0) = offset_sweep(init);
        assert(offset_sweep(s) == offset_step(out0, acc0, a));
        let out1 = offset_sweep(s).0;
        match a {
            SpecAtom::MovePtr(_) => {},
            SpecAtom::Multiply(_, _) => {
                lemma_tied_push(out0, SpecAtom::MovePtr(acc0));
                lemma_tied_push(out0.push(SpecAtom::MovePtr(acc0)), a);
            },
            SpecAtom::Loop(body) => {
                lemma_offset_op_tied(body);
                lemma_tied_push(out0, SpecAtom::MovePtr(acc0));
                lemma_tied_push(
                    out0.push(SpecAtom::MovePtr(acc0)),
                    SpecAtom::Loop(offset_op_spec(body)),
                );
            },
            _ => {
                assert(out1 == out0.push(out1.last()));
                lemma_tied_push(out0, out1.last());
            },
        }
    }
}

/// What `offset_op` gives has its moves tied.
pub proof fn lemma_offset_op_tied(s: Seq<SpecAtom>)
    ensures
        tied(offset_op_spec(s)),
    decreases s, 1int,
{
    lemma_offset_sweep_tied(s);
    lemma_tied_push(offset_sweep(s).0, SpecAtom::MovePtr(offset_sweep(s).1));
}

/// Whether each atom of a run goes to an offset that is not greater than
/// that of the next.
pub open spec fn ranked(w: Seq<SpecAtom>) -> bool {
    forall|i: int| 0 <= i < w.len() - 1 ==> write_offset(#[trigger] w[i]) <= write_offset(w[i + 1])
}

/// A write put in its place in a run that is in order leaves the run in order.
proof fn lemma_insert_ranked(t: Seq<SpecAtom>, a: SpecAtom)
    requires
        all_writes(t),
        ranked(t),
        is_write(a),
    ensures
        all_writes(insert_by_offset(t, a)),
        ranked(insert_by_offset(t, a)),
        insert_by_offset(t, a).len() == t.len() + 1,
        insert_by_offset(t, a).last() == a || (t.len() > 0 && insert_by_offset(t, a).last()
            == t.last()),
    decreases t.len(),
{
    let r = insert_by_offset(t, a);
    if t.len() == 0 || write_offset(t.last()) <= write_offset(a) {
        assert forall|i: int| 0 <= i < r.len() implies is_write(#[trigger] r[i]) by {
            if i < t.len() {
                assert(r[i] == t[i]);
            }
        }
        assert forall|i: int| 0 <= i < r.len() - 1 implies write_offset(#[trigger] r[i])
            <= write_offset(r[i + 1]) by {
            if i < t.len() - 1 {
                assert(r[i] == t[i]);
                assert(write_offset(t[i]) <= write_offset(t[i + 1]));
            }
        }
    } else {
        let t0 = t.drop_last();
        let l = t.last();
        assert forall|i: int| 0 <= i < t0.len() implies is_write(#[trigger] t0[i]) by {
            assert(t0[i] == t[i]);
        }
        assert forall|i: int| 0 <= i < t0.len() - 1 implies write_offset(#[trigger] t0[i])
            <= write_offset(t0[i + 1]) by {
            assert(t0[i] == t[i]);
            assert(write_offset(t[i]) <= write_offset(t[i + 1]));
        }
        lemma_insert_ranked(t0, a);
        let r0 = insert_by_offset(t0, a);
        assert(r == r0.push(l));
        assert(is_write(t[t.len() - 1]));
        if t0.len() > 0 {
            assert(write_offset(t[t.len() - 2]) <= write_offset(t[t.len() - 2 + 1]));
        }
        assert forall|i: int| 0 <= i < r.len() implies is_write(#[trigger] r[i]) by {
            if i < r0.len() {
                assert(r[i] == r0[i]);
            }
        }
        assert forall|i: int| 0 <= i < r.len() - 1 implies write_offset(#[trigger] r[i])
            <= write_offset(r[i + 1]) by {
            if i < r0.len() - 1 {
                assert(r[i] == r0[i]);
                assert(write_offset(r0[i]) <= write_offset(r0[i + 1]));
            }
        }
    }
}

/// A sorted run of writes is in order.
pub proof fn lemma_sorted_ranked(w: Seq<SpecAtom>)
    requires
        all_writes(w),
    ensures
        all_writes(sorted_by_offset(w)),
        ranked(sorted_by_offset(w)),
        sorted_by_offset(w).len() == w.len(),
    decreases w.len(),
{
    if w.len() > 0 {
        let w0 = w.drop_last();
        assert forall|i: int| 0 <= i < w0.len() implies is_write(#[trigger] w0[i]) by {
            assert(w0[i] == w[i]);
        }
        assert(is_write(w[w.len() - 1]));
        lemma_sorted_ranked(w0);
        lemma_insert_ranked(sorted_by_offset(w0), w.last());
    }
}

/// A tidy sequence and one more atom that fits its last.
proof fn lemma_tidy_push(t: Seq<SpecAtom>, a: SpecAtom)
    requires
        tidy(t),
        tidy_atom(a),
        t.len() > 0 ==> tidy_pair(t.last(), a),
    ensures
        tidy(t.push(a)),
{
    let n = t.push(a);
    assert forall|i: int| 0 <= i < n.len() implies tidy_atom(#[trigger] n[i]) by {
        if i < t.len() {
            assert(n[i] == t[i]);
        }
    }
    assert forall|i: int| 0 <= i < n.len() - 1 implies tidy_pair(#[trigger] n[i], n[i + 1]) by {
        if i < t.len() - 1 {
            assert(n[i] == t[i]);
            assert(tidy_pair(t[i], t[i + 1]));
        }
    }
}

/// A tidy sequence with a run of writes in order behind it, where the
/// sequence does not end with a move or a write.
proof fn lemma_tidy_run(x: Seq<SpecAtom>, w: Seq<SpecAtom>)
    requires
        tidy(x),
        all_writes(w),
        ranked(w),
        w.len() > 0 && x.len() > 0 ==> !(x.last() is MovePtr) && !is_write(x.last()),
    ensures
        tidy(x + w),
    decreases w.len(),
{
    if w.len() == 0 {
        assert(x + w =~= x);
    } else {
        let w0 = w.drop_last();
        assert forall|i: int| 0 <= i < w0.len() implies is_write(#[trigger] w0[i]) by {
            assert(w0[i] == w[i]);
        }
        assert forall|i: int| 0 <= i < w0.len() - 1 implies write_offset(#[trigger] w0[i])
            <= write_offset(w0[i + 1]) by {
            assert(w0[i] == w[i]);
            assert(write_offset(w[i]) <= write_offset(w[i + 1]));
        }
        lemma_tidy_run(x, w0);
        assert(is_write(w[w.len() - 1]));
        if w0.len() > 0 {
            assert(is_write(w[w.len() - 2]));
            assert(write_offset(w[w.len() - 2]) <= write_offset(w[w.len() - 2 + 1]));
            assert((x + w0).last() == w[w.len() - 2]);
        } else {
            assert(x + w0 =~= x);
        }
        lemma_tidy_push(x + w0, w.last());
        assert((x + w0).push(w.last()) =~= x + w);
    }
}

/// What the sweep of `reorder` has emitted from a program with tied moves is
/// tidy and ends with no write; the run it holds back follows no move.
proof fn lemma_reorder_sweep_tidy(s: Seq<SpecAtom>)
    requires
        tied(s),
    ensures
        ({
            let (out, run) = reorder_sweep(s);
            &&& tidy(out)
            &&& all_writes(run)
            &&& out.len() > 0 ==> !is_write(out.last())
            &&& run.len() > 0 ==> s.len() > 0 && is_write(s.last()) && (out.len() > 0 ==> !(
                out.last() is MovePtr))
            &&& run.len() == 0 && s.len() > 0 ==> out.len() > 0 && (out.last() is MovePtr
                <==> s.last() is MovePtr)
        }),
    decreases s, 0int,
{
    if s.len() > 0 {
        let init = s.drop_last();
        let a = s.last();
        lemma_tied_init(s);
        lemma_reorder_sweep_tidy(init);
        let (out0, run0) = reorder_sweep(init);
        if init.len() > 0 {
            assert(init.last() == s[s.len() - 2]);
        }
        let b = reorder_atom(a);
        match a {
            SpecAtom::Loop(body) => {
                lemma_reorder_tidy(body);
                assert(b == SpecAtom::Loop(reorder_spec(body)));
            },
            _ => {
                assert(b == a);
            },
        }
        if is_write(b) {
            let run1 = run0.push(b);
            assert forall|i: int| 0 <= i < run1.len() implies is_write(#[trigger] run1[i]) by {
                if i < run0.len() {
                    assert(run1[i] == run0[i]);
                }
            }
        } else {
            lemma_sorted_ranked(run0);
            let sorted = sorted_by_offset(run0);
            lemma_tidy_run(out0, sorted);
            let flushed = out0 + sorted;
            if sorted.len() > 0 {
                assert(flushed.last() == sorted[sorted.len() - 1]);
                assert(is_write(sorted[sorted.len() - 1]));
            } else {
                assert(flushed =~= out0);
            }
            lemma_tidy_push(flushed, b);
            assert(reorder_sweep(s).1 =~= Seq::<SpecAtom>::empty());
        }
    }
}

/// What `reorder` gives from a program with tied moves is tidy.
pub proof fn lemma_reorder_tidy(s: Seq<SpecAtom>)
    requires
        tied(s),
    ensures
        tidy(reorder_spec(s)),
    decreases s, 1int,
{
    lemma_reorder_sweep_tidy(s);
    let (out, run) = reorder_sweep(s);
    lemma_sorted_ranked(run);
    lemma_tidy_run(out, sorted_by_offset(run));
}

/// The sweep of `combine` leaves a sequence as it is if no two neighbours
/// can be merged.
pub proof fn lemma_coalesced_same(s: Seq<SpecAtom>)
    requires
        forall|i: int| 0 <= i < s.len() - 1 ==> merge(#[trigger] s[i], s[i + 1]) is None,
    ensures
        coalesced(s) == s,
    decreases s.len(),
{
    if s.len() > 0 {
        let init = s.drop_last();
        assert forall|i: int| 0 <= i < init.len() - 1 implies merge(
            #[trigger] init[i],
            init[i + 1],
        ) is None by {
            assert(init[i] == s[i]);
            assert(merge(s[i], s[i + 1]) is None);
        }
        lemma_coalesced_same(init);
        if init.len() > 0 {
            assert(merge(s[s.len() - 2], s[s.len() - 2 + 1]) is None);
            assert(init.last() == s[s.len() - 2]);
        }
        assert(init.push(s.last()) =~= s);
        assert(seq![s.last()] =~= Seq::<SpecAtom>::empty().push(s.last()));
    }
}

/// `combine` leaves a tidy program as it is if it leaves it as heavy.
pub proof fn lemma_combine_tidy(s: Seq<SpecAtom>)
    requires
        tidy(s),
        weight(combine_spec(s)) == weight(s),
    ensures
        combine_spec(s) == s,
    decreases s,
{
    lemma_combine_weight(s);
    lemma_combine_each_places(s);
    let t = combine_each(s);
    assert forall|i: int| 0 <= i < s.len() implies #[trigger] t[i] == s[i] by {
        assert(tidy_atom(s[i]));
        match s[i] {
            SpecAtom::Loop(body) => {
                lemma_combine_tidy(body);
            },
            _ => {},
        }
    }
    assert(t =~= s);
    assert forall|i: int| 0 <= i < s.len() - 1 implies merge(#[trigger] s[i], s[i + 1]) is None by {
        lemma_merge_kinds(s[i], s[i + 1]);
        assert(tidy_pair(s[i], s[i + 1]));
        assert(!clash(s[i], s[i + 1]));
    }
    lemma_coalesced_same(s);
}

/// Whether an atom is a move by zero.
pub open spec fn zero_move(a: SpecAtom) -> bool {
    a matches SpecAtom::MovePtr(o) && o == 0
}

/// What `clean` gives from a tidy sequence without increments by zero: no
/// move by zero, and neighbours that fit as they did.
pub proof fn lemma_clean_tidy(s: Seq<SpecAtom>)
    requires
        forall|i: int| 0 <= i < s.len() - 1 ==> tidy_pair(#[trigger] s[i], s[i + 1]),
        forall|i: int| 0 <= i < s.len() ==> !zero_inc(#[trigger] s[i]),
    ensures
        forall|i: int|
            0 <= i < clean_spec(s).len() ==> !zero_move(#[trigger] clean_spec(s)[i]) && !zero_inc(
                clean_spec(s)[i],
            ),
        forall|i: int|
            0 <= i < clean_spec(s).len() - 1 ==> tidy_pair(
                #[trigger] clean_spec(s)[i],
                clean_spec(s)[i + 1],
            ),
        s.len() > 0 && clean_atom(s.last()) is Some ==> clean_spec(s).len() > 0
            && clean_spec(s).last() == clean_atom(s.last())->Some_0,
        s.len() > 0 && clean_atom(s.last()) is None ==> s.last() is MovePtr,
        clean_spec(s).len() > 0 && clean_spec(s).last() is MovePtr ==> s.last() is MovePtr,
    decreases s.len(),
{
    if s.len() > 0 {
        let init = s.drop_last();
        let a = s.last();
        assert forall|i: int| 0 <= i < init.len() - 1 implies tidy_pair(
            #[trigger] init[i],
            init[i + 1],
        ) by {
            assert(init[i] == s[i]);
            assert(tidy_pair(s[i], s[i + 1]));
        }
        assert forall|i: int| 0 <= i < init.len() implies !zero_inc(#[trigger] init[i]) by {
            assert(init[i] == s[i]);
        }
        lemma_clean_tidy(init);
        let c0 = clean_spec(init);
        let c = clean_spec(s);
        assert(!zero_inc(s[s.len() - 1]));
        if init.len() > 0 {
            assert(tidy_pair(s[s.len() - 2], s[s.len() - 2 + 1]));
            assert(init.last() == s[s.len() - 2]);
        }
        match clean_atom(a) {
            None => {
                assert(c == c0);
            },
            Some(b) => {
                assert(c == c0.push(b));
                assert forall|i: int| 0 <= i < c.len() implies !zero_move(#[trigger] c[i])
                    && !zero_inc(c[i]) by {
                    if i < c0.len() {
                        assert(c[i] == c0[i]);
                    }
                }
                assert forall|i: int| 0 <= i < c.len() - 1 implies tidy_pair(
                    #[trigger] c[i],
                    c[i + 1],
                ) by {
                    if i < c0.len() - 1 {
                        assert(c[i] == c0[i]);
                        assert(tidy_pair(c0[i], c0[i + 1]));
                    } else {
                        assert(c[i] == c0.last());
                        assert(c[i + 1] == b);
                    }
                }
            },
        }
    }
}

/// The bodies of the loops among the atoms of a sequence, in order.
pub open spec fn bodies(s: Seq<SpecAtom>) -> Seq<Seq<SpecAtom>>
    decreases s.len(),
{
    if s.len() == 0 {
        Seq::empty()
    } else {
        match s.last() {
            SpecAtom::Loop(body) => bodies(s.drop_last()).push(body),
            _ => bodies(s.drop_last()),
        }
    }
}

/// The bodies of a sequence with one more atom.
proof fn lemma_bodies_push(s: Seq<SpecAtom>, a: SpecAtom)
    ensures
        bodies(s.push(a)) == match a {
            SpecAtom::Loop(body) => bodies(s).push(body),
            _ => bodies(s),
        },
{
    assert(s.push(a).drop_last() =~= s);
}

/// The bodies of two sequences one after the other.
proof fn lemma_bodies_concat(a: Seq<SpecAtom>, b: Seq<SpecAtom>)
    ensures
        bodies(a + b) == bodies(a) + bodies(b),
    decreases b.len(),
{
    if b.len() == 0 {
        assert(a + b =~= a);
        assert(bodies(a) + bodies(b) =~= bodies(a));
    } else {
        lemma_bodies_concat(a, b.drop_last());
        assert((a + b).drop_last() =~= a + b.drop_last());
        assert((a + b).last() == b.last());
        match b.last() {
            SpecAtom::Loop(body) => {
                assert((bodies(a) + bodies(b.drop_last())).push(body) =~= bodies(a) + bodies(
                    b.drop_last(),
                ).push(body));
            },
            _ => {},
        }
    }
}

/// A run of writes holds no loop.
proof fn lemma_bodies_of_writes(w: Seq<SpecAtom>)
    requires
        all_writes(w),
    ensures
        bodies(w).len() == 0,
    decreases w.len(),
{
    if w.len() > 0 {
        let w0 = w.drop_last();
        assert forall|i: int| 0 <= i < w0.len() implies is_write(#[trigger] w0[i]) by {
            assert(w0[i] == w[i]);
        }
        assert(is_write(w[w.len() - 1]));
        lemma_bodies_of_writes(w0);
    }
}

/// Each body of the sequence of bodies is the body of a loop among the atoms.
proof fn lemma_bodies_holds(s: Seq<SpecAtom>, j: int)
    requires
        0 <= j < bodies(s).len(),
    ensures
        exists|i: int| 0 <= i < s.len() && #[trigger] s[i] == SpecAtom::Loop(bodies(s)[j]),
    decreases s.len(),
{
    if s.len() > 0 {
        let init = s.drop_last();
        if j < bodies(init).len() {
            lemma_bodies_holds(init, j);
            let i = choose|i: int|
                0 <= i < init.len() && #[trigger] init[i] == SpecAtom::Loop(bodies(init)[j]);
            assert(s[i] == init[i]);
        } else {
            assert(s[s.len() - 1] == SpecAtom::Loop(bodies(s)[j]));
        }
    }
}

/// The body of each loop among the atoms is in the sequence of bodies.
proof fn lemma_bodies_found(s: Seq<SpecAtom>, i: int)
    requires
        0 <= i < s.len(),
        s[i] is Loop,
    ensures
        exists|j: int| 0 <= j < bodies(s).len() && #[trigger] bodies(s)[j] == s[i]->Loop_0,
    decreases s.len(),
{
    let init = s.drop_last();
    if i < s.len() - 1 {
        lemma_bodies_found(init, i);
        let j = choose|j: int|
            0 <= j < bodies(init).len() && #[trigger] bodies(init)[j] == init[i]->Loop_0;
        assert(bodies(s)[j] == bodies(init)[j]);
    } else {
        let j = bodies(s).len() - 1;
        assert(bodies(s)[j] == s[i]->Loop_0);
    }
}

/// `combine` combines the body of each loop and keeps the loops in order.
proof fn lemma_bodies_combined(s: Seq<SpecAtom>)
    ensures
        bodies(combine_spec(s)).len() == bodies(s).len(),
        forall|j: int|
            0 <= j < bodies(s).len() ==> #[trigger] bodies(combine_spec(s))[j] == combine_spec(
                bodies(s)[j],
            ),
{
    lemma_bodies_combine_each(s);
    lemma_bodies_coalesced(combine_each(s));
}

/// Combining the bodies of the loops keeps the loops in order.
proof fn lemma_bodies_combine_each(s: Seq<SpecAtom>)
    ensures
        bodies(combine_each(s)).len() == bodies(s).len(),
        forall|j: int|
            0 <= j < bodies(s).len() ==> #[trigger] bodies(combine_each(s))[j] == combine_spec(
                bodies(s)[j],
            ),
    decreases s.len(),
{
    if s.len() > 0 {
        let init = s.drop_last();
        lemma_bodies_combine_each(init);
        lemma_bodies_push(combine_each(init), combine_atom(s.last()));
        match s.last() {
            SpecAtom::Loop(body) => {
                assert(combine_atom(s.last()) == SpecAtom::Loop(combine_spec(body)));
            },
            _ => {
                assert(combine_atom(s.last()) == s.last());
            },
        }
    }
}

/// The sweep of `combine` keeps the loops and their order.
proof fn lemma_bodies_coalesced(s: Seq<SpecAtom>)
    ensures
        bodies(coalesced(s)) == bodies(s),
    decreases s.len(),
{
    if s.len() > 0 {
        let init = s.drop_last();
        let a = s.last();
        lemma_bodies_coalesced(init);
        let kept = coalesced(init);
        if kept.len() == 0 {
            lemma_coalesced_weight(init);
            assert(init.len() == 0);
            assert(seq![a] =~= Seq::<SpecAtom>::empty().push(a));
            lemma_bodies_push(Seq::<SpecAtom>::empty(), a);
        } else {
            let d = kept.last();
            lemma_merge_kinds(d, a);
            match merge(d, a) {
                Some(both) => {
                    lemma_bodies_push(kept.drop_last(), both);
                    assert(bodies(kept) == bodies(kept.drop_last()));
                },
                None => {
                    lemma_bodies_push(kept, a);
                },
            }
        }
    }
}

/// `clean` cleans the body of each loop and keeps the loops in order.
proof fn lemma_bodies_cleaned(s: Seq<SpecAtom>)
    ensures
        bodies(clean_spec(s)).len() == bodies(s).len(),
        forall|j: int|
            0 <= j < bodies(s).len() ==> #[trigger] bodies(clean_spec(s))[j] == clean_spec(
                bodies(s)[j],
            ),
    decreases s.len(),
{
    if s.len() > 0 {
        let init = s.drop_last();
        lemma_bodies_cleaned(init);
        match clean_atom(s.last()) {
            Some(b) => {
                lemma_bodies_push(clean_spec(init), b);
            },
            None => {},
        }
    }
}

/// `offset_op` rewrites the body of each loop and keeps the loops in order.
proof fn lemma_bodies_offset_op(s: Seq<SpecAtom>)
    ensures
        bodies(offset_sweep(s).0).len() == bodies(s).len(),
        forall|j: int|
            0 <= j < bodies(s).len() ==> #[trigger] bodies(offset_sweep(s).0)[j] == offset_op_spec(
                bodies(s)[j],
            ),
        bodies(offset_op_spec(s)) == bodies(offset_sweep(s).0),
    decreases s.len(),
{
    if s.len() > 0 {
        let init = s.drop_last();
        let a = s.last();
        lemma_bodies_offset_op(init);
        let (out0, acc0) = offset_sweep(init);
        assert(offset_sweep(s) == offset_step(out0, acc0, a));
        let out1 = offset_sweep(s).0;
        match a {
            SpecAtom::MovePtr(_) => {},
            SpecAtom::Multiply(_, _) => {
                lemma_bodies_push(out0, SpecAtom::MovePtr(acc0));
                lemma_bodies_push(out0.push(SpecAtom::MovePtr(acc0)), a);
            },
            SpecAtom::Loop(body) => {
                lemma_bodies_push(out0, SpecAtom::MovePtr(acc0));
                lemma_bodies_push(
                    out0.push(SpecAtom::MovePtr(acc0)),
                    SpecAtom::Loop(offset_op_spec(body)),
                );
            },
            _ => {
                assert(out1 == out0.push(out1.last()));
                lemma_bodies_push(out0, out1.last());
            },
        }
    }
    lemma_bodies_push(offset_sweep(s).0, SpecAtom::MovePtr(offset_sweep(s).1));
}

/// `reorder` reorders the body of each loop and keeps the loops in order.
proof fn lemma_bodies_reordered(s: Seq<SpecAtom>)
    ensures
        all_writes(reorder_sweep(s).1),
        bodies(reorder_sweep(s).0).len() == bodies(s).len(),
        forall|j: int|
            0 <= j < bodies(s).len() ==> #[trigger] bodies(reorder_sweep(s).0)[j] == reorder_spec(
                bodies(s)[j],
            ),
        bodies(reorder_spec(s)) == bodies(reorder_sweep(s).0),
    decreases s.len(),
{
    if s.len() > 0 {
        let init = s.drop_last();
        let a = s.last();
        lemma_bodies_reordered(init);
        let (out0, run0) = reorder_sweep(init);
        let b = reorder_atom(a);
        match a {
            SpecAtom::Loop(body) => {
                assert(b == SpecAtom::Loop(reorder_spec(body)));
            },
            _ => {
                assert(b == a);
            },
        }
        if is_write(b) {
            let run1 = run0.push(b);
            assert forall|i: int| 0 <= i < run1.len() implies is_write(#[trigger] run1[i]) by {
                if i < run0.len() {
                    assert(run1[i] == run0[i]);
                }
            }
        } else {
            lemma_sorted_ranked(run0);
            let sorted = sorted_by_offset(run0);
            lemma_bodies_of_writes(sorted);
            lemma_bodies_concat(out0, sorted);
            assert(bodies(out0) + bodies(sorted) =~= bodies(out0));
            lemma_bodies_push(out0 + sorted, b);
            assert(reorder_sweep(s).1 =~= Seq::<SpecAtom>::empty());
        }
    }
    let (out, run) = reorder_sweep(s);
    lemma_sorted_ranked(run);
    lemma_bodies_of_writes(sorted_by_offset(run));
    lemma_bodies_concat(out, sorted_by_offset(run));
    assert(bodies(out) + bodies(sorted_by_offset(run)) =~= bodies(out));
}

/// A program that the optimizer leaves as it is, is settled.
pub proof fn law_fixed_is_settled(q: Seq<SpecAtom>)
    requires
        run_opts_spec(q) == q,
    ensures
        settled(q),
    decreases q,
{
    let a1 = combine_spec(q);
    let a2 = clean_spec(a1);
    let a3 = zero_loops_spec(a2);
    let a4 = offset_op_spec(a3);
    let a5 = reorder_spec(a4);
    let a6 = add_multiply_spec(a5);
    let a7 = combine_spec(a6);
    lemma_combine_weight(q);
    lemma_clean_weight(a1);
    lemma_zero_loops_weight(a2);
    lemma_offset_op_weight(a3);
    lemma_reorder_weight(a4);
    lemma_add_multiply_weight(a5);
    lemma_combine_weight(a6);
    lemma_clean_weight(a7);
    assert(a3 == a2);
    assert(a6 == a5);
    lemma_offset_op_tied(a2);
    lemma_reorder_tidy(a4);
    lemma_combine_tidy(a5);
    assert(a7 == a5);
    assert(q == clean_spec(a5));
    lemma_clean_tidy(a5);
    lemma_bodies_combined(q);
    lemma_bodies_cleaned(a1);
    lemma_bodies_offset_op(a2);
    lemma_bodies_reordered(a4);
    lemma_bodies_cleaned(a5);
    assert forall|i: int| 0 <= i < q.len() - 1 implies settled_pair(#[trigger] q[i], q[i + 1]) by {
        lemma_merge_kinds(q[i], q[i + 1]);
        assert(tidy_pair(q[i], q[i + 1]));
        assert(!clash(q[i], q[i + 1]));
    }
    assert forall|i: int| 0 <= i < q.len() implies settled_atom(#[trigger] q[i]) by {
        assert(!zero_move(q[i]) && !zero_inc(q[i]));
        match q[i] {
            SpecAtom::Loop(b) => {
                lemma_bodies_found(q, i);
                let j = choose|j: int| 0 <= j < bodies(q).len() && #[trigger] bodies(q)[j] == b;
                let b1 = combine_spec(b);
                let b2 = clean_spec(b1);
                let b4 = offset_op_spec(b2);
                let b5 = reorder_spec(b4);
                assert(bodies(a1)[j] == b1);
                assert(bodies(a2)[j] == b2);
                assert(bodies(a4)[j] == b4);
                assert(bodies(a5)[j] == b5);
                assert(clean_spec(b5) == b);
                lemma_bodies_holds(a2, j);
                let i2 = choose|n: int|
                    0 <= n < a2.len() && #[trigger] a2[n] == SpecAtom::Loop(bodies(a2)[j]);
                assert(zero_loops_spec(b2) == b2);
                lemma_bodies_holds(a5, j);
                let i5 = choose|n: int|
                    0 <= n < a5.len() && #[trigger] a5[n] == SpecAtom::Loop(bodies(a5)[j]);
                assert(add_multiply_spec(b5) == b5 && !is_multiply_loop(b5));
                assert(tidy_atom(a5[i5]));
                lemma_combine_tidy(b5);
                assert(run_opts_spec(b) == b);
                law_fixed_is_settled(b);
                if counts_down(b) {
                    lemma_combine_settled(b);
                    lemma_clean_settled(b);
                    lemma_offset_op_settled(b);
                    lemma_reorder_settled(b);
                    lemma_counts_down_multiply(b);
                    assert(b5 == flushed(b));
                }
            },
            _ => {},
        }
    }
}

/// The programs that the optimizer leaves as they are, are the settled programs.
pub proof fn law_fixed_exactly_settled(q: Seq<SpecAtom>)
    ensures
        run_opts_spec(q) == q <==> settled(q),
{
    if settled(q) {
        law_settled_is_fixed(q);
    }
    if run_opts_spec(q) == q {
        law_fixed_is_settled(q);
    }
}

/// Optimizing twice gives what optimizing once gives exactly for the
/// programs whose optimized form is settled.
pub proof fn law_idempotent_exactly(s: Seq<SpecAtom>)
    ensures
        run_opts_spec(run_opts_spec(s)) == run_opts_spec(s) <==> settled(run_opts_spec(s)),
{
    law_fixed_exactly_settled(run_opts_spec(s));
}

} // verus!
