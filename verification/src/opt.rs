//! The optimizer: a fixed pipeline of rewriting passes over a program.

pub mod fixed;
pub mod settled;

use itertools::Itertools;
use std::collections::HashMap;
use vstd::prelude::*;
use crate::ir::lemma_loop_model;
use crate::ir::lemma_vec_model;
use crate::ir::program_model;
use crate::ir::push_to;
use crate::ir::Atom;
use crate::ir::SpecAtom;
use crate::utils::offset_u8;
use crate::utils::offset_u8_spec;

verus! {

/// The sum of two deltas as the machine forms it: it wraps around.
pub open spec fn add_deltas(a: i8, b: i8) -> i8 {
    vstd::wrapping::i8_specs::wrapping_add(a, b)
}

/// The sum of two offsets as the machine forms it: it wraps around.
pub open spec fn add_offsets(a: isize, b: isize) -> isize {
    vstd::wrapping::isize_specs::wrapping_add(a, b)
}

/// The single atom that does what `a` followed by `b` does, for the pairs
/// that `combine` merges: two moves; two writes to the same offset, of which a
/// later store makes an earlier write dead and a later increment is folded
/// into an earlier store or increment.
pub open spec fn merge(a: SpecAtom, b: SpecAtom) -> Option<SpecAtom> {
    match a {
        SpecAtom::MovePtr(av) => match b {
            SpecAtom::MovePtr(bv) => Some(SpecAtom::MovePtr(add_offsets(av, bv))),
            _ => None,
        },
        SpecAtom::IncValue(av, o1) => match b {
            SpecAtom::IncValue(bv, o2) => if o1 == o2 {
                Some(SpecAtom::IncValue(add_deltas(av, bv), o1))
            } else {
                None
            },
            SpecAtom::SetValue(sv, o2) => if o1 == o2 {
                Some(SpecAtom::SetValue(sv, o1))
            } else {
                None
            },
            _ => None,
        },
        SpecAtom::SetValue(sv, o1) => match b {
            SpecAtom::IncValue(ov, o2) => if o1 == o2 {
                Some(SpecAtom::SetValue(offset_u8_spec(sv, ov), o1))
            } else {
                None
            },
            SpecAtom::SetValue(sv2, o2) => if o1 == o2 {
                Some(SpecAtom::SetValue(sv2, o1))
            } else {
                None
            },
            _ => None,
        },
        _ => None,
    }
}

/// A left-to-right sweep that merges each atom into the one before it where
/// `merge` allows, so that a chain of mergeable atoms collapses into one.
pub open spec fn coalesced(s: Seq<SpecAtom>) -> Seq<SpecAtom>
    decreases s.len(),
{
    if s.len() == 0 {
        Seq::empty()
    } else {
        let done = coalesced(s.drop_last());
        if done.len() == 0 {
            seq![s.last()]
        } else {
            match merge(done.last(), s.last()) {
                Some(m) => done.drop_last().push(m),
                None => done.push(s.last()),
            }
        }
    }
}

/// Merges two adjacent atoms into one, or hands both back unchanged.
pub fn combiner(a: Atom, b: Atom) -> (r: Result<Atom, (Atom, Atom)>)
    ensures
        match merge(a.deep_view(), b.deep_view()) {
            Some(m) => r is Ok && r->Ok_0.deep_view() == m,
            None => r == Err::<Atom, (Atom, Atom)>((a, b)),
        },
{
    match (a, b) {
        (Atom::MovePtr(av), Atom::MovePtr(bv)) => Ok(Atom::MovePtr(av.wrapping_add(bv))),
        (Atom::IncValue(av, o1), Atom::IncValue(bv, o2)) => {
            if o1 == o2 {
                Ok(Atom::IncValue(av.wrapping_add(bv), o1))
            } else {
                Err((Atom::IncValue(av, o1), Atom::IncValue(bv, o2)))
            }
        },
        (Atom::IncValue(av, o1), Atom::SetValue(sv, o2)) => {
            if o1 == o2 {
                Ok(Atom::SetValue(sv, o1))
            } else {
                Err((Atom::IncValue(av, o1), Atom::SetValue(sv, o2)))
            }
        },
        (Atom::SetValue(sv, o1), Atom::IncValue(ov, o2)) => {
            if o1 == o2 {
                Ok(Atom::SetValue(offset_u8(sv, ov), o1))
            } else {
                Err((Atom::SetValue(sv, o1), Atom::IncValue(ov, o2)))
            }
        },
        (Atom::SetValue(sv1, o1), Atom::SetValue(sv, o2)) => {
            if o1 == o2 {
                Ok(Atom::SetValue(sv, o1))
            } else {
                Err((Atom::SetValue(sv1, o1), Atom::SetValue(sv, o2)))
            }
        },
        (a, b) => Err((a, b)),
    }
}

/// Runs `Itertools::coalesce` over the atoms with `combiner` as the merging
/// function, and collects what it yields.
///
/// Trusted: `coalesce` keeps one pending item, the first of the input; it
/// offers the pending item and the next input item to the function; on `Ok`
/// the merged item becomes the pending one, on `Err` the first of the pair is
/// yielded and the second becomes pending; at the end of the input the pending
/// item is yielded. `coalesced` says the same of the models.
#[verifier::external_body]
fn coalesce_atoms(ir: Vec<Atom>) -> (out: Vec<Atom>)
    ensures
        out.deep_view() == coalesced(ir.deep_view()),
{
    ir.into_iter().coalesce(|a, b| combiner(a, b)).collect()
}

/// What `combine` does to one atom before the sweep: a loop gets its body combined.
pub open spec fn combine_atom(a: SpecAtom) -> SpecAtom
    decreases a, 0int,
{
    match a {
        SpecAtom::Loop(body) => SpecAtom::Loop(combine_spec(body)),
        _ => a,
    }
}

/// The program with the body of each of its loops combined.
pub open spec fn combine_each(s: Seq<SpecAtom>) -> Seq<SpecAtom>
    decreases s, 0int,
{
    if s.len() == 0 {
        Seq::empty()
    } else {
        combine_each(s.drop_last()).push(combine_atom(s.last()))
    }
}

/// The program with adjacent mergeable atoms merged, in every loop body first
/// and then at the level of the program itself.
pub open spec fn combine_spec(s: Seq<SpecAtom>) -> Seq<SpecAtom>
    decreases s, 1int,
{
    coalesced(combine_each(s))
}

/// Merges adjacent atoms wherever `merge` gives a single atom for the pair,
/// in every loop body first.
pub fn combine(ir: Vec<Atom>) -> (out: Vec<Atom>)
    ensures
        out.deep_view() == combine_spec(ir.deep_view()),
    decreases ir,
{
    let mut mapped: Vec<Atom> = Vec::new();
    let ghost src = ir.deep_view();
    let ghost raw = ir@;
    for atom in it: ir
        invariant
            it.seq() == raw,
            raw == ir@,
            src == program_model(raw),
            mapped.deep_view() == combine_each(src.take(it.index() as int)),
    {
        let ghost next = src.take(it.index() + 1);
        proof {
            assert(next.drop_last() =~= src.take(it.index() as int));
            assert(next.last() == atom.deep_view());
        }
        match atom {
            Atom::Loop(sub) => {
                proof {
                    lemma_loop_model(sub);
                }
                let body = combine(sub);
                proof {
                    lemma_loop_model(body);
                }
                push_to(&mut mapped, Atom::Loop(body));
            },
            other => {
                assert(combine_atom(next.last()) == other.deep_view());
                push_to(&mut mapped, other);
            },
        }
        assert(mapped.deep_view() == combine_each(next));
    }
    proof {
        assert(src.take(src.len() as int) =~= src);
    }
    coalesce_atoms(mapped)
}

/// What `clean` leaves of one atom: nothing of a move by zero or an increment
/// by zero, a loop with its body cleaned, any other atom as it is.
pub open spec fn clean_atom(a: SpecAtom) -> Option<SpecAtom>
    decreases a,
{
    match a {
        SpecAtom::MovePtr(o) => if o == 0 {
            None
        } else {
            Some(a)
        },
        SpecAtom::IncValue(d, _) => if d == 0 {
            None
        } else {
            Some(a)
        },
        SpecAtom::Loop(body) => Some(SpecAtom::Loop(clean_spec(body))),
        _ => Some(a),
    }
}

/// The program without its atoms that have no effect, at every depth.
pub open spec fn clean_spec(s: Seq<SpecAtom>) -> Seq<SpecAtom>
    decreases s,
{
    if s.len() == 0 {
        Seq::empty()
    } else {
        match clean_atom(s.last()) {
            None => clean_spec(s.drop_last()),
            Some(a) => clean_spec(s.drop_last()).push(a),
        }
    }
}

/// Removes the atoms that have no effect: moves by zero and increments by
/// zero, in the program and in every loop body.
pub fn clean(ir: Vec<Atom>) -> (out: Vec<Atom>)
    ensures
        out.deep_view() == clean_spec(ir.deep_view()),
    decreases ir,
{
    let mut out: Vec<Atom> = Vec::new();
    let ghost src = ir.deep_view();
    let ghost raw = ir@;
    for atom in it: ir
        invariant
            it.seq() == raw,
            raw == ir@,
            src == program_model(raw),
            out.deep_view() == clean_spec(src.take(it.index() as int)),
    {
        proof {
            assert(src.take(it.index() + 1).drop_last() =~= src.take(it.index() as int));
            assert(src.take(it.index() + 1).last() == atom.deep_view());
        }
        let ghost next = src.take(it.index() + 1);
        match atom {
            Atom::MovePtr(0) => {
                assert(clean_atom(next.last()) is None);
            },
            Atom::IncValue(0, _) => {
                assert(clean_atom(next.last()) is None);
            },
            Atom::Loop(content) => {
                proof {
                    lemma_loop_model(content);
                }
                let body = clean(content);
                proof {
                    lemma_loop_model(body);
                }
                assert(clean_atom(next.last()) == Some(Atom::Loop(body).deep_view()));
                push_to(&mut out, Atom::Loop(body));
            },
            other => {
                assert(clean_atom(next.last()) == Some(other.deep_view()));
                push_to(&mut out, other);
            },
        }
        assert(out.deep_view() == clean_spec(next));
    }
    proof {
        assert(src.take(src.len() as int) =~= src);
    }
    out
}

/// Whether a loop body is the single atom that decrements the current cell.
pub open spec fn is_decrement(body: Seq<SpecAtom>) -> bool {
    body.len() == 1 && body[0] == SpecAtom::IncValue(-1i8, 0isize)
}

/// What `zero_loops` makes of one atom: a loop whose rewritten body only
/// decrements the current cell becomes the store of zero.
pub open spec fn zero_atom(a: SpecAtom) -> SpecAtom
    decreases a,
{
    match a {
        SpecAtom::Loop(body) => {
            let new_body = zero_loops_spec(body);
            if is_decrement(new_body) {
                SpecAtom::SetValue(0, 0)
            } else {
                SpecAtom::Loop(new_body)
            }
        },
        _ => a,
    }
}

/// The program with every loop that only counts its cell down to zero
/// replaced by a store of zero, innermost loops first.
pub open spec fn zero_loops_spec(s: Seq<SpecAtom>) -> Seq<SpecAtom>
    decreases s,
{
    if s.len() == 0 {
        Seq::empty()
    } else {
        zero_loops_spec(s.drop_last()).push(zero_atom(s.last()))
    }
}

/// Replaces each loop whose body is exactly a decrement of the current cell
/// by a store of zero; bodies are rewritten before they are examined.
pub fn zero_loops(ir: Vec<Atom>) -> (out: Vec<Atom>)
    ensures
        out.deep_view() == zero_loops_spec(ir.deep_view()),
    decreases ir,
{
    let mut out: Vec<Atom> = Vec::new();
    let ghost src = ir.deep_view();
    let ghost raw = ir@;
    for atom in it: ir
        invariant
            it.seq() == raw,
            raw == ir@,
            src == program_model(raw),
            out.deep_view() == zero_loops_spec(src.take(it.index() as int)),
    {
        let ghost next = src.take(it.index() + 1);
        proof {
            assert(next.drop_last() =~= src.take(it.index() as int));
            assert(next.last() == atom.deep_view());
        }
        match atom {
            Atom::Loop(sub) => {
                proof {
                    lemma_loop_model(sub);
                }
                let new_sub = zero_loops(sub);
                proof {
                    lemma_loop_model(new_sub);
                }
                let only_decrement = new_sub.len() == 1 && match new_sub[0] {
                    Atom::IncValue(-1, 0) => true,
                    _ => false,
                };
                assert(only_decrement == is_decrement(new_sub.deep_view()));
                if only_decrement {
                    push_to(&mut out, Atom::SetValue(0, 0));
                } else {
                    push_to(&mut out, Atom::Loop(new_sub));
                }
            },
            other => {
                assert(zero_atom(next.last()) == other.deep_view());
                push_to(&mut out, other);
            },
        }
        assert(out.deep_view() == zero_loops_spec(next));
    }
    proof {
        assert(src.take(src.len() as int) =~= src);
    }
    out
}

/// The move that `offset_op` emits for a displacement it has gathered.
pub open spec fn flush(acc: isize) -> SpecAtom {
    SpecAtom::MovePtr(acc)
}

/// The state of `offset_op` after a sweep over `s`: the atoms emitted so far
/// and the displacement that has been gathered and not yet emitted.
pub open spec fn offset_sweep(s: Seq<SpecAtom>) -> (Seq<SpecAtom>, isize)
    decreases s, 0int,
{
    if s.len() == 0 {
        (Seq::empty(), 0)
    } else {
        let (out, acc) = offset_sweep(s.drop_last());
        offset_step(out, acc, s.last())
    }
}

/// One step of the sweep of `offset_op`.
pub open spec fn offset_step(out: Seq<SpecAtom>, acc: isize, a: SpecAtom) -> (Seq<SpecAtom>, isize)
    decreases a, 0int,
{
    match a {
        SpecAtom::MovePtr(o) => (out, add_offsets(acc, o)),
        SpecAtom::SetValue(v, o) => (out.push(SpecAtom::SetValue(v, add_offsets(acc, o))), acc),
        SpecAtom::IncValue(d, o) => (out.push(SpecAtom::IncValue(d, add_offsets(acc, o))), acc),
        SpecAtom::Print(o) => (out.push(SpecAtom::Print(add_offsets(acc, o))), acc),
        SpecAtom::Read(o) => (out.push(SpecAtom::Read(add_offsets(acc, o))), acc),
        SpecAtom::Multiply(f, o) => (out.push(flush(acc)).push(SpecAtom::Multiply(f, o)), 0),
        SpecAtom::Loop(body) => (
            out.push(flush(acc)).push(SpecAtom::Loop(offset_op_spec(body))),
            0,
        ),
    }
}

/// The program with its moves folded into the offsets of the atoms that
/// follow them. A move is emitted only where the cursor itself matters: before
/// each multiplication and each loop, and at the end of each sequence, always,
/// even when the displacement is zero.
pub open spec fn offset_op_spec(s: Seq<SpecAtom>) -> Seq<SpecAtom>
    decreases s, 1int,
{
    let (out, acc) = offset_sweep(s);
    out.push(flush(acc))
}

/// Folds cursor moves into the offsets of the atoms that follow them.
pub fn offset_op(ir: Vec<Atom>) -> (out: Vec<Atom>)
    ensures
        out.deep_view() == offset_op_spec(ir.deep_view()),
    decreases ir,
{
    let mut new_ir: Vec<Atom> = Vec::with_capacity(ir.len());
    let mut current_offset: isize = 0;
    let ghost src = ir.deep_view();
    let ghost raw = ir@;
    for atom in it: ir
        invariant
            it.seq() == raw,
            raw == ir@,
            src == program_model(raw),
            (new_ir.deep_view(), current_offset) == offset_sweep(src.take(it.index() as int)),
    {
        let ghost next = src.take(it.index() + 1);
        let ghost before = new_ir.deep_view();
        let ghost acc = current_offset;
        proof {
            assert(next.drop_last() =~= src.take(it.index() as int));
            assert(next.last() == atom.deep_view());
        }
        match atom {
            Atom::MovePtr(offset) => {
                current_offset = current_offset.wrapping_add(offset);
            },
            Atom::SetValue(value, offset) => {
                let new_offset = current_offset.wrapping_add(offset);
                push_to(&mut new_ir, Atom::SetValue(value, new_offset));
            },
            Atom::IncValue(inc, offset) => {
                let new_offset = current_offset.wrapping_add(offset);
                push_to(&mut new_ir, Atom::IncValue(inc, new_offset));
            },
            Atom::Print(offset) => {
                push_to(&mut new_ir, Atom::Print(current_offset.wrapping_add(offset)));
            },
            Atom::Read(offset) => {
                push_to(&mut new_ir, Atom::Read(current_offset.wrapping_add(offset)));
            },
            Atom::Multiply(factor, offset) => {
                push_to(&mut new_ir, Atom::MovePtr(current_offset));
                current_offset = 0;
                push_to(&mut new_ir, Atom::Multiply(factor, offset));
            },
            Atom::Loop(sub) => {
                push_to(&mut new_ir, Atom::MovePtr(current_offset));
                current_offset = 0;
                proof {
                    lemma_loop_model(sub);
                }
                let body = offset_op(sub);
                proof {
                    lemma_loop_model(body);
                }
                push_to(&mut new_ir, Atom::Loop(body));
            },
        }
        assert((new_ir.deep_view(), current_offset) == offset_step(before, acc, next.last()));
    }
    proof {
        assert(src.take(src.len() as int) =~= src);
    }
    push_to(&mut new_ir, Atom::MovePtr(current_offset));
    new_ir
}

/// Whether an atom writes a cell without reading the cursor's cell: such
/// atoms are what `reorder` sorts.
pub open spec fn is_write(a: SpecAtom) -> bool {
    a is SetValue || a is IncValue
}

/// The offset that a write goes to.
pub open spec fn write_offset(a: SpecAtom) -> isize {
    match a {
        SpecAtom::SetValue(_, o) => o,
        SpecAtom::IncValue(_, o) => o,
        _ => 0,
    }
}

/// `s` with `a` put behind the last atom whose offset is not greater than its own.
pub open spec fn insert_by_offset(s: Seq<SpecAtom>, a: SpecAtom) -> Seq<SpecAtom>
    decreases s.len(),
{
    if s.len() == 0 || write_offset(s.last()) <= write_offset(a) {
        s.push(a)
    } else {
        insert_by_offset(s.drop_last(), a).push(s.last())
    }
}

/// The atoms of `s` in the order of their offsets; atoms with the same offset
/// keep the order they have in `s`.
pub open spec fn sorted_by_offset(s: Seq<SpecAtom>) -> Seq<SpecAtom>
    decreases s.len(),
{
    if s.len() == 0 {
        Seq::empty()
    } else {
        insert_by_offset(sorted_by_offset(s.drop_last()), s.last())
    }
}

/// Inserting at the place that a search from the end finds is `insert_by_offset`.
proof fn lemma_insert_at(s: Seq<SpecAtom>, a: SpecAtom, j: int)
    requires
        0 <= j <= s.len(),
        forall|k: int| j <= k < s.len() ==> write_offset(#[trigger] s[k]) > write_offset(a),
        j > 0 ==> write_offset(s[j - 1]) <= write_offset(a),
    ensures
        insert_by_offset(s, a) == s.insert(j, a),
    decreases s.len(),
{
    if j == s.len() {
        assert(s.push(a) =~= s.insert(j, a));
    } else {
        let init = s.drop_last();
        assert forall|k: int| j <= k < init.len() implies write_offset(#[trigger] init[k])
            > write_offset(a) by {
            assert(init[k] == s[k]);
        }
        lemma_insert_at(init, a, j);
        assert(init.insert(j, a).push(s.last()) =~= s.insert(j, a));
    }
}

/// The offset by which `reorder` sorts a write.
pub fn offset_extractor(atom: &Atom) -> (o: isize)
    requires
        is_write(atom.deep_view()),
    ensures
        o == write_offset(atom.deep_view()),
{
    match atom {
        Atom::SetValue(_, offset) => *offset,
        Atom::IncValue(_, offset) => *offset,
        _ => 0,
    }
}

/// Sorts writes by offset; writes to the same offset keep their order.
pub fn sort_by_offset(run: Vec<Atom>) -> (out: Vec<Atom>)
    requires
        forall|i: int| 0 <= i < run.len() ==> is_write(#[trigger] run.deep_view()[i]),
    ensures
        out.deep_view() == sorted_by_offset(run.deep_view()),
{
    let mut out: Vec<Atom> = Vec::with_capacity(run.len());
    let ghost src = run.deep_view();
    let ghost raw = run@;
    proof {
        lemma_vec_model(out);
    }
    for atom in it: run
        invariant
            it.seq() == raw,
            src == program_model(raw),
            forall|i: int| 0 <= i < src.len() ==> is_write(#[trigger] src[i]),
            out.deep_view() == sorted_by_offset(src.take(it.index() as int)),
            out.len() == it.index(),
    {
        let ghost next = src.take(it.index() + 1);
        let ghost before = out.deep_view();
        proof {
            assert(next.drop_last() =~= src.take(it.index() as int));
            assert(next.last() == atom.deep_view());
            assert(is_write(src[it.index() as int]));
        }
        let key = offset_extractor(&atom);
        let mut j: usize = out.len();
        while j > 0 && offset_of_any(&out[j - 1]) > key
            invariant
                j <= out.len(),
                before == out.deep_view(),
                key == write_offset(atom.deep_view()),
                forall|k: int| j <= k < before.len() ==> write_offset(#[trigger] before[k]) > key,
            decreases j,
        {
            j -= 1;
        }
        proof {
            lemma_insert_at(before, atom.deep_view(), j as int);
            lemma_vec_model(out);
            assert(program_model(out@.insert(j as int, atom)) =~= before.insert(
                j as int,
                atom.deep_view(),
            ));
        }
        out.insert(j, atom);
        proof {
            lemma_vec_model(out);
        }
    }
    proof {
        assert(src.take(src.len() as int) =~= src);
    }
    out
}

/// The offset of a write, and zero for any other atom.
fn offset_of_any(atom: &Atom) -> (o: isize)
    ensures
        o == write_offset(atom.deep_view()),
{
    match atom {
        Atom::SetValue(_, offset) => *offset,
        Atom::IncValue(_, offset) => *offset,
        _ => 0,
    }
}

/// What `reorder` does to one atom before the sweep: a loop gets its body reordered.
pub open spec fn reorder_atom(a: SpecAtom) -> SpecAtom
    decreases a, 0int,
{
    match a {
        SpecAtom::Loop(body) => SpecAtom::Loop(reorder_spec(body)),
        _ => a,
    }
}

/// The state of `reorder` after a sweep over `s`: the atoms emitted so far,
/// and the writes seen since the last atom that is not a write.
pub open spec fn reorder_sweep(s: Seq<SpecAtom>) -> (Seq<SpecAtom>, Seq<SpecAtom>)
    decreases s, 0int,
{
    if s.len() == 0 {
        (Seq::empty(), Seq::empty())
    } else {
        let (out, run) = reorder_sweep(s.drop_last());
        let a = reorder_atom(s.last());
        if is_write(a) {
            (out, run.push(a))
        } else {
            ((out + sorted_by_offset(run)).push(a), Seq::empty())
        }
    }
}

/// The program with each maximal run of consecutive writes sorted by offset,
/// writes to one offset in their old order; every other atom keeps its place,
/// and loop bodies are reordered in the same way.
pub open spec fn reorder_spec(s: Seq<SpecAtom>) -> Seq<SpecAtom>
    decreases s, 1int,
{
    let (out, run) = reorder_sweep(s);
    out + sorted_by_offset(run)
}

/// The model of a concatenation is the concatenation of the models.
proof fn lemma_concat_model(a: Seq<Atom>, b: Seq<Atom>)
    ensures
        program_model(a + b) == program_model(a) + program_model(b),
{
    assert(program_model(a + b) =~= program_model(a) + program_model(b));
}

/// Moves the atoms of `tail` to the end of `v`.
fn extend_with(v: &mut Vec<Atom>, tail: Vec<Atom>)
    ensures
        final(v).deep_view() == old(v).deep_view() + tail.deep_view(),
{
    let mut tail = tail;
    proof {
        lemma_vec_model(*v);
        lemma_vec_model(tail);
        lemma_concat_model(v@, tail@);
    }
    v.append(&mut tail);
    proof {
        lemma_vec_model(*v);
    }
}

/// Sorts each maximal run of consecutive writes by offset.
pub fn reorder(ir: Vec<Atom>) -> (out: Vec<Atom>)
    ensures
        out.deep_view() == reorder_spec(ir.deep_view()),
    decreases ir,
{
    let mut new_ir: Vec<Atom> = Vec::with_capacity(ir.len());
    let mut temp_ir: Vec<Atom> = Vec::new();
    let ghost src = ir.deep_view();
    let ghost raw = ir@;
    proof {
        lemma_vec_model(new_ir);
        lemma_vec_model(temp_ir);
    }
    for atom in it: ir
        invariant
            it.seq() == raw,
            raw == ir@,
            src == program_model(raw),
            (new_ir.deep_view(), temp_ir.deep_view()) == reorder_sweep(
                src.take(it.index() as int),
            ),
            forall|i: int|
                0 <= i < temp_ir.len() ==> is_write(#[trigger] temp_ir.deep_view()[i]),
    {
        let ghost next = src.take(it.index() + 1);
        let ghost out0 = new_ir.deep_view();
        let ghost run0 = temp_ir.deep_view();
        proof {
            assert(next.drop_last() =~= src.take(it.index() as int));
            assert(next.last() == atom.deep_view());
        }
        let atom = match atom {
            Atom::Loop(sub) => {
                proof {
                    lemma_loop_model(sub);
                }
                let body = reorder(sub);
                proof {
                    lemma_loop_model(body);
                }
                Atom::Loop(body)
            },
            other => other,
        };
        assert(atom.deep_view() == reorder_atom(next.last()));
        match atom {
            Atom::SetValue(value, offset) => {
                push_to(&mut temp_ir, Atom::SetValue(value, offset));
            },
            Atom::IncValue(inc, offset) => {
                push_to(&mut temp_ir, Atom::IncValue(inc, offset));
            },
            a => {
                let run = sort_by_offset(temp_ir);
                extend_with(&mut new_ir, run);
                push_to(&mut new_ir, a);
                temp_ir = Vec::new();
                proof {
                    lemma_vec_model(temp_ir);
                    assert(temp_ir.deep_view() =~= Seq::empty());
                }
            },
        }
        assert((new_ir.deep_view(), temp_ir.deep_view()) == reorder_sweep(next));
    }
    proof {
        assert(src.take(src.len() as int) =~= src);
    }
    let run = sort_by_offset(temp_ir);
    extend_with(&mut new_ir, run);
    new_ir
}

/// Whether a loop body holds nothing but moves and increments.
pub open spec fn only_moves_and_incs(body: Seq<SpecAtom>) -> bool {
    forall|i: int| 0 <= i < body.len() ==> (#[trigger] body[i] is MovePtr || body[i] is IncValue)
}

/// The net increment that a tally holds for a cell, zero where it holds none.
pub open spec fn tallied(m: Map<isize, i8>, key: isize) -> i8 {
    if m.contains_key(key) {
        m[key]
    } else {
        0
    }
}

/// What one run of a body of moves and increments does: the displacement of
/// the cursor, and for each cell that is incremented, by its distance from
/// where the cursor started, the sum of its increments.
pub open spec fn tally(body: Seq<SpecAtom>) -> (isize, Map<isize, i8>)
    decreases body.len(),
{
    if body.len() == 0 {
        (0, Map::empty())
    } else {
        let (disp, m) = tally(body.drop_last());
        match body.last() {
            SpecAtom::MovePtr(o) => (add_offsets(disp, o), m),
            SpecAtom::IncValue(d, o) => {
                let key = add_offsets(o, disp);
                (disp, m.insert(key, add_deltas(tallied(m, key), d)))
            },
            _ => (disp, m),
        }
    }
}

/// Whether a loop only adds multiples of its own cell to other cells: its
/// body holds nothing but moves and increments, leaves the cursor where it
/// was, and takes exactly one from the cell the loop tests.
pub open spec fn is_multiply_loop(body: Seq<SpecAtom>) -> bool {
    let (disp, m) = tally(body);
    only_moves_and_incs(body) && disp == 0 && m.contains_key(0) && m[0] == -1
}

/// The state of the sweep that emits the multiplications of a loop: the
/// displacement so far, the cells of the tally not yet dealt with, and the
/// atoms emitted.
pub open spec fn emit_sweep(body: Seq<SpecAtom>, m: Map<isize, i8>) -> (
    isize,
    Map<isize, i8>,
    Seq<SpecAtom>,
)
    decreases body.len(),
{
    if body.len() == 0 {
        (0, m, Seq::empty())
    } else {
        let (disp, rest, out) = emit_sweep(body.drop_last(), m);
        match body.last() {
            SpecAtom::MovePtr(o) => (add_offsets(disp, o), rest, out),
            SpecAtom::IncValue(_, o) => {
                let key = add_offsets(o, disp);
                if rest.contains_key(key) {
                    if key != 0 && rest[key] != 0 {
                        (disp, rest.remove(key), out.push(SpecAtom::Multiply(rest[key], key)))
                    } else {
                        (disp, rest.remove(key), out)
                    }
                } else {
                    (disp, rest, out)
                }
            },
            _ => (disp, rest, out),
        }
    }
}

/// One multiplication for each cell other than the loop's own whose net
/// increment is not zero, in the order in which the body first touches them.
pub open spec fn multiplications(body: Seq<SpecAtom>) -> Seq<SpecAtom> {
    emit_sweep(body, tally(body).1).2
}

/// What stands for a loop with the given body: its multiplications and the
/// store of zero if it is a multiply loop, else the loop itself.
pub open spec fn expand_loop(body: Seq<SpecAtom>) -> Seq<SpecAtom> {
    if is_multiply_loop(body) {
        multiplications(body).push(SpecAtom::SetValue(0, 0))
    } else {
        seq![SpecAtom::Loop(body)]
    }
}

/// What `add_multiply` puts in the place of one atom.
pub open spec fn add_multiply_atom(a: SpecAtom) -> Seq<SpecAtom>
    decreases a,
{
    match a {
        SpecAtom::Loop(body) => expand_loop(add_multiply_spec(body)),
        _ => seq![a],
    }
}

/// The program with each multiply loop replaced by its multiplications and a
/// store of zero, innermost loops first.
pub open spec fn add_multiply_spec(s: Seq<SpecAtom>) -> Seq<SpecAtom>
    decreases s,
{
    if s.len() == 0 {
        Seq::empty()
    } else {
        add_multiply_spec(s.drop_last()) + add_multiply_atom(s.last())
    }
}

/// The atoms that stand for a loop with the given body.
pub fn work_on_loop(loop_content: Vec<Atom>) -> (out: Vec<Atom>)
    ensures
        out.deep_view() == expand_loop(loop_content.deep_view()),
{
    broadcast use vstd::std_specs::hash::group_hash_axioms;

    let ghost body = loop_content.deep_view();
    let mut total_ptr_offset: isize = 0;
    let mut increments: HashMap<isize, i8> = HashMap::new();
    let mut plain = true;
    let mut i: usize = 0;
    while i < loop_content.len() && plain
        invariant
            i <= loop_content.len(),
            body == loop_content.deep_view(),
            plain ==> only_moves_and_incs(body.take(i as int)),
            plain ==> (total_ptr_offset, increments@) == tally(body.take(i as int)),
            !plain ==> !only_moves_and_incs(body),
        decreases loop_content.len() - i, plain as int,
    {
        proof {
            assert(body.take(i as int + 1).drop_last() =~= body.take(i as int));
            assert(body.take(i as int + 1).last() == loop_content[i as int].deep_view());
        }
        match &loop_content[i] {
            Atom::MovePtr(offset) => {
                total_ptr_offset = total_ptr_offset.wrapping_add(*offset);
                i += 1;
            },
            Atom::IncValue(inc, offset) => {
                let key = offset.wrapping_add(total_ptr_offset);
                let old = match increments.get(&key) {
                    Some(v) => *v,
                    None => 0,
                };
                increments.insert(key, old.wrapping_add(*inc));
                i += 1;
            },
            _ => {
                proof {
                    assert(!(body[i as int] is MovePtr || body[i as int] is IncValue));
                }
                plain = false;
            },
        }
        proof {
            if plain {
                let next = body.take(i as int);
                assert forall|k: int| 0 <= k < next.len() implies (#[trigger] next[k] is MovePtr
                    || next[k] is IncValue) by {
                    if k < next.len() - 1 {
                        assert(next[k] == next.drop_last()[k]);
                    }
                }
            }
        }
    }
    proof {
        assert(body.take(body.len() as int) =~= body);
    }
    let minus_one = match increments.get(&0) {
        Some(v) => *v == -1,
        None => false,
    };
    if !plain || !minus_one || total_ptr_offset != 0 {
        let mut out: Vec<Atom> = Vec::new();
        proof {
            lemma_loop_model(loop_content);
            lemma_vec_model(out);
        }
        push_to(&mut out, Atom::Loop(loop_content));
        proof {
            assert(out.deep_view() =~= seq![SpecAtom::Loop(body)]);
        }
        return out;
    }
    let ghost net = increments@;
    let mut atoms: Vec<Atom> = Vec::new();
    let mut disp: isize = 0;
    let mut j: usize = 0;
    proof {
        lemma_vec_model(atoms);
        assert(atoms.deep_view() =~= Seq::empty());
    }
    while j < loop_content.len()
        invariant
            j <= loop_content.len(),
            body == loop_content.deep_view(),
            (disp, increments@, atoms.deep_view()) == emit_sweep(body.take(j as int), net),
        decreases loop_content.len() - j,
    {
        proof {
            assert(body.take(j as int + 1).drop_last() =~= body.take(j as int));
            assert(body.take(j as int + 1).last() == loop_content[j as int].deep_view());
        }
        match &loop_content[j] {
            Atom::MovePtr(offset) => {
                disp = disp.wrapping_add(*offset);
            },
            Atom::IncValue(_, offset) => {
                let key = offset.wrapping_add(disp);
                match increments.remove(&key) {
                    Some(inc) => {
                        if key != 0 && inc != 0 {
                            push_to(&mut atoms, Atom::Multiply(inc, key));
                        }
                    },
                    None => {},
                }
            },
            _ => {},
        }
        j += 1;
    }
    push_to(&mut atoms, Atom::SetValue(0, 0));
    atoms
}

/// Replaces each multiply loop by one multiplication for each cell it adds to
/// and a store of zero to its own cell; loop bodies are rewritten first.
pub fn add_multiply(ir: Vec<Atom>) -> (out: Vec<Atom>)
    ensures
        out.deep_view() == add_multiply_spec(ir.deep_view()),
    decreases ir,
{
    let mut new_ir: Vec<Atom> = Vec::with_capacity(ir.len());
    let ghost src = ir.deep_view();
    let ghost raw = ir@;
    proof {
        lemma_vec_model(new_ir);
    }
    for atom in it: ir
        invariant
            it.seq() == raw,
            raw == ir@,
            src == program_model(raw),
            new_ir.deep_view() == add_multiply_spec(src.take(it.index() as int)),
    {
        let ghost next = src.take(it.index() + 1);
        let ghost before = new_ir.deep_view();
        proof {
            assert(next.drop_last() =~= src.take(it.index() as int));
            assert(next.last() == atom.deep_view());
        }
        match atom {
            Atom::Loop(sub) => {
                proof {
                    lemma_loop_model(sub);
                }
                let ghost old_body = sub.deep_view();
                let sub = add_multiply(sub);
                let expanded = work_on_loop(sub);
                assert(add_multiply_atom(next.last()) == expand_loop(add_multiply_spec(old_body)));
                extend_with(&mut new_ir, expanded);
            },
            other => {
                assert(add_multiply_atom(next.last()) == seq![other.deep_view()]);
                push_to(&mut new_ir, other);
                assert(new_ir.deep_view() =~= before + seq![other.deep_view()]);
            },
        }
        assert(new_ir.deep_view() == add_multiply_spec(next));
    }
    proof {
        assert(src.take(src.len() as int) =~= src);
    }
    new_ir
}

/// The optimized program: the passes applied one after another, the result of
/// each handed to the next.
pub open spec fn run_opts_spec(s: Seq<SpecAtom>) -> Seq<SpecAtom> {
    clean_spec(
        combine_spec(
            add_multiply_spec(
                reorder_spec(offset_op_spec(zero_loops_spec(clean_spec(combine_spec(s))))),
            ),
        ),
    )
}

/// Optimizes a program: `combine`, `clean`, `zero_loops`, `offset_op`,
/// `reorder`, `add_multiply`, then `combine` and `clean` once more.
pub fn run_opts(ir: Vec<Atom>) -> (out: Vec<Atom>)
    ensures
        out.deep_view() == run_opts_spec(ir.deep_view()),
{
    let ir = combine(ir);
    let ir = clean(ir);
    let ir = zero_loops(ir);
    let ir = offset_op(ir);
    let ir = reorder(ir);
    let ir = add_multiply(ir);
    let ir = combine(ir);
    clean(ir)
}

} // verus!
