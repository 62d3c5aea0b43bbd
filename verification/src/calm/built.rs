//! Programs that are built from short source texts are calm.

use vstd::prelude::*;
use crate::calm::ring::calm;
use crate::calm::ring::drift;
use crate::calm::ring::reach;
use crate::calm::ring::within;
use crate::ir::build_spec;
use crate::ir::law_built_from_source;
use crate::ir::scan;
use crate::ir::scan_push;
use crate::ir::source_atom;
use crate::ir::source_atoms;
use crate::ir::ScanState;
use crate::ir::SpecAtom;
use crate::ir::SRC_CLOSE;
use crate::ir::SRC_DEC;
use crate::ir::SRC_INC;
use crate::ir::SRC_LEFT;
use crate::ir::SRC_OPEN;
use crate::ir::SRC_PRINT;
use crate::ir::SRC_READ;
use crate::ir::SRC_RIGHT;

verus! {

/// The number of atoms of a program, those in the bodies of its loops included.
pub open spec fn atoms(s: Seq<SpecAtom>) -> nat
    decreases s, 1int,
{
    if s.len() == 0 {
        0
    } else {
        atoms(s.drop_last()) + atom_size(s.last())
    }
}

/// The number of atoms that an atom stands for: itself and the atoms of its body.
pub open spec fn atom_size(a: SpecAtom) -> nat
    decreases a, 0int,
{
    match a {
        SpecAtom::Loop(body) => 1 + atoms(body),
        _ => 1,
    }
}

/// The number of atoms of the open loops of a scan, each loop counted too.
pub open spec fn open_atoms(loops: Seq<(usize, Seq<SpecAtom>)>) -> nat
    decreases loops.len(),
{
    if loops.len() == 0 {
        0
    } else {
        open_atoms(loops.drop_last()) + 1 + atoms(loops.last().1)
    }
}

/// The atoms of a sequence with one more atom.
proof fn lemma_atoms_push(s: Seq<SpecAtom>, a: SpecAtom)
    ensures
        atoms(s.push(a)) == atoms(s) + atom_size(a),
{
    assert(s.push(a).drop_last() =~= s);
}

/// The atoms of the open loops with one more loop.
proof fn lemma_open_atoms_push(loops: Seq<(usize, Seq<SpecAtom>)>, top: (usize, Seq<SpecAtom>))
    ensures
        open_atoms(loops.push(top)) == open_atoms(loops) + 1 + atoms(top.1),
{
    assert(loops.push(top).drop_last() =~= loops);
}

/// One more atom is one more atom of the state of the scan.
proof fn lemma_scan_push_atoms(st: ScanState, a: SpecAtom)
    ensures
        atoms(scan_push(st, a).ir) + open_atoms(scan_push(st, a).loops) == atoms(st.ir)
            + open_atoms(st.loops) + atom_size(a),
{
    if st.loops.len() > 0 {
        let top = st.loops.last();
        lemma_atoms_push(top.1, a);
        lemma_open_atoms_push(st.loops.drop_last(), (top.0, top.1.push(a)));
    } else {
        lemma_atoms_push(st.ir, a);
    }
}

/// A scan has collected no more atoms than it has seen bytes.
proof fn lemma_scan_atoms(input: Seq<u8>)
    requires
        scan(input) is Ok,
    ensures
        atoms(scan(input)->Ok_0.ir) + open_atoms(scan(input)->Ok_0.loops) <= input.len(),
    decreases input.len(),
{
    if input.len() > 0 {
        lemma_scan_atoms(input.drop_last());
        let st = scan(input.drop_last())->Ok_0;
        let c = input.last();
        let pos = (input.len() - 1) as usize;
        if c == SRC_INC {
            lemma_scan_push_atoms(st, SpecAtom::IncValue(1, 0));
        } else if c == SRC_DEC {
            lemma_scan_push_atoms(st, SpecAtom::IncValue(-1i8, 0));
        } else if c == SRC_LEFT {
            lemma_scan_push_atoms(st, SpecAtom::MovePtr(-1isize));
        } else if c == SRC_RIGHT {
            lemma_scan_push_atoms(st, SpecAtom::MovePtr(1));
        } else if c == SRC_PRINT {
            lemma_scan_push_atoms(st, SpecAtom::Print(0));
        } else if c == SRC_READ {
            lemma_scan_push_atoms(st, SpecAtom::Read(0));
        } else if c == SRC_OPEN {
            lemma_open_atoms_push(st.loops, (pos, Seq::empty()));
        } else if c == SRC_CLOSE {
            let outer = ScanState { ir: st.ir, loops: st.loops.drop_last() };
            lemma_scan_push_atoms(outer, SpecAtom::Loop(st.loops.last().1));
        }
    }
}

/// A sequence is no longer than it has atoms, and takes the cursor no
/// further than it is long if its moves are steps of one cell.
proof fn lemma_source_drift(s: Seq<SpecAtom>)
    requires
        source_atoms(s),
    ensures
        s.len() <= atoms(s),
        within(drift(s), s.len() as int),
    decreases s.len(),
{
    if s.len() > 0 {
        let init = s.drop_last();
        assert forall|i: int| 0 <= i < init.len() implies source_atom(#[trigger] init[i]) by {
            assert(init[i] == s[i]);
        }
        lemma_source_drift(init);
        assert(source_atom(s[s.len() - 1]));
        assert(atom_size(s.last()) >= 1);
        assert(atoms(s) == atoms(init) + atom_size(s.last()));
    }
}

/// A program of atoms that the builder makes is calm under every bound that
/// is no less than the number of its atoms.
proof fn lemma_source_calm(s: Seq<SpecAtom>, bound: int)
    requires
        source_atoms(s),
        atoms(s) <= bound,
    ensures
        calm(s, bound),
    decreases s, 1int,
{
    if s.len() > 0 {
        let init = s.drop_last();
        let a = s.last();
        assert forall|i: int| 0 <= i < init.len() implies source_atom(#[trigger] init[i]) by {
            assert(init[i] == s[i]);
        }
        assert(source_atom(s[s.len() - 1]));
        assert(atom_size(a) >= 1);
        assert(atoms(s) == atoms(init) + atom_size(a));
        lemma_source_calm(init, bound);
        lemma_source_drift(init);
        match a {
            SpecAtom::Loop(body) => {
                assert(atom_size(a) == 1 + atoms(body));
                lemma_source_calm(body, bound);
            },
            _ => {},
        }
        assert(within(reach(a), 1));
        assert(crate::calm::ring::calm_atom(a, bound));
        assert(within(drift(init) + reach(a), bound));
    }
}

/// A program that is built from a source text of fewer than 15000 bytes is calm.
pub proof fn lemma_built_calm(source: Seq<u8>)
    requires
        source.len() < 15_000,
        build_spec(source) is Ok,
    ensures
        calm(build_spec(source)->Ok_0, crate::calm::ring::calm_bound()),
{
    law_built_from_source(source);
    lemma_scan_atoms(source);
    lemma_source_calm(build_spec(source)->Ok_0, crate::calm::ring::calm_bound());
}

} // verus!
