//! The intermediate representation: a tree of atoms, and the builder that
//! reads it from source bytes.

use vstd::prelude::*;

verus! {

/// One instruction of the intermediate representation.
///
/// Offsets are relative to the cursor at the moment the atom runs.
#[derive(Debug, PartialEq, Eq)]
pub enum Atom {
    /// Shift the cursor.
    MovePtr(isize),
    /// Store a value in the cell at the offset.
    SetValue(u8, isize),
    /// Add a signed delta to the cell at the offset.
    IncValue(i8, isize),
    /// Emit the cell at the offset.
    Print(isize),
    /// Read one input byte into the cell at the offset.
    Read(isize),
    /// Add the current cell times the factor to the cell at the offset.
    Multiply(i8, isize),
    /// Repeat the body while the current cell is not zero.
    Loop(Vec<Atom>),
}

/// The mathematical value of an [`Atom`]: the same tree, with a sequence for
/// each loop body. Programs are `Seq<SpecAtom>`.
pub enum SpecAtom {
    MovePtr(isize),
    SetValue(u8, isize),
    IncValue(i8, isize),
    Print(isize),
    Read(isize),
    Multiply(i8, isize),
    Loop(Seq<SpecAtom>),
}

/// The model of one atom.
pub open spec fn atom_model(a: Atom) -> SpecAtom
    decreases a,
{
    match a {
        Atom::MovePtr(o) => SpecAtom::MovePtr(o),
        Atom::SetValue(v, o) => SpecAtom::SetValue(v, o),
        Atom::IncValue(d, o) => SpecAtom::IncValue(d, o),
        Atom::Print(o) => SpecAtom::Print(o),
        Atom::Read(o) => SpecAtom::Read(o),
        Atom::Multiply(f, o) => SpecAtom::Multiply(f, o),
        Atom::Loop(sub) => SpecAtom::Loop(
            Seq::new(
                sub@.len(),
                |i: int|
                    if 0 <= i < sub@.len() {
                        atom_model(sub@[i])
                    } else {
                        SpecAtom::MovePtr(0)
                    },
            ),
        ),
    }
}

impl DeepView for Atom {
    type V = SpecAtom;

    open spec fn deep_view(&self) -> SpecAtom {
        atom_model(*self)
    }
}

/// A loop's model holds the models of the atoms of its body, in order.
pub broadcast proof fn lemma_loop_model(sub: Vec<Atom>)
    ensures
        #[trigger] Atom::Loop(sub).deep_view() == SpecAtom::Loop(sub.deep_view()),
{
    assert(Atom::Loop(sub).deep_view()->Loop_0 =~= sub.deep_view());
}

/// Appending an atom appends its model.
pub broadcast proof fn lemma_push_model(v: Seq<Atom>, a: Atom)
    ensures
        #[trigger] program_model(v.push(a)) == program_model(v).push(a.deep_view()),
{
    assert(program_model(v.push(a)) =~= program_model(v).push(a.deep_view()));
}

/// The model of a sequence of atoms; `v.deep_view()` of a vector `v` is
/// `program_model(v@)`.
pub open spec fn program_model(v: Seq<Atom>) -> Seq<SpecAtom> {
    Seq::new(v.len(), |i: int| v[i].deep_view())
}

/// A vector's deep view is the model of its contents.
pub broadcast proof fn lemma_vec_model(v: Vec<Atom>)
    ensures
        #[trigger] v.deep_view() == program_model(v@),
{
    assert(v.deep_view() =~= program_model(v@));
}

/// Appends an atom to a program.
pub fn push_to(v: &mut Vec<Atom>, atom: Atom)
    ensures
        final(v).deep_view() == old(v).deep_view().push(atom.deep_view()),
        final(v)@ == old(v)@.push(atom),
{
    proof {
        lemma_vec_model(*v);
        lemma_push_model(v@, atom);
    }
    v.push(atom);
    proof {
        lemma_vec_model(*v);
    }
}

/// A copy of a program.
pub fn clone_atoms(ir: &Vec<Atom>) -> (out: Vec<Atom>)
    ensures
        out.deep_view() == ir.deep_view(),
    decreases ir,
{
    let mut out: Vec<Atom> = Vec::with_capacity(ir.len());
    let mut i: usize = 0;
    while i < ir.len()
        invariant
            i <= ir.len(),
            out.deep_view() == ir.deep_view().take(i as int),
        decreases ir.len() - i,
    {
        let a = clone_atom(&ir[i]);
        proof {
            assert(ir.deep_view().take(i as int + 1) =~= ir.deep_view().take(i as int).push(
                ir[i as int].deep_view(),
            ));
            assert(out@.push(a).len() == out@.len() + 1);
            assert(program_model(out@.push(a)) =~= out.deep_view().push(a.deep_view()));
        }
        out.push(a);
        i += 1;
    }
    proof {
        assert(ir.deep_view().take(ir.len() as int) =~= ir.deep_view());
    }
    out
}

/// A copy of an atom.
pub fn clone_atom(atom: &Atom) -> (out: Atom)
    ensures
        out.deep_view() == atom.deep_view(),
    decreases atom,
{
    match atom {
        Atom::MovePtr(o) => Atom::MovePtr(*o),
        Atom::SetValue(v, o) => Atom::SetValue(*v, *o),
        Atom::IncValue(d, o) => Atom::IncValue(*d, *o),
        Atom::Print(o) => Atom::Print(*o),
        Atom::Read(o) => Atom::Read(*o),
        Atom::Multiply(f, o) => Atom::Multiply(*f, *o),
        Atom::Loop(sub) => {
            let body = clone_atoms(sub);
            proof {
                lemma_loop_model(body);
                lemma_loop_model(*sub);
            }
            Atom::Loop(body)
        },
    }
}

impl Clone for Atom {
    fn clone(&self) -> (out: Self)
        ensures
            out.deep_view() == self.deep_view(),
    {
        clone_atom(self)
    }
}

/// The source byte `+`: add one to the current cell.
pub const SRC_INC: u8 = 43;

/// The source byte `-`: subtract one from the current cell.
pub const SRC_DEC: u8 = 45;

/// The source byte `<`: move the cursor one cell to the left.
pub const SRC_LEFT: u8 = 60;

/// The source byte `>`: move the cursor one cell to the right.
pub const SRC_RIGHT: u8 = 62;

/// The source byte `.`: emit the current cell.
pub const SRC_PRINT: u8 = 46;

/// The source byte `,`: read into the current cell.
pub const SRC_READ: u8 = 44;

/// The source byte `[`: open a loop.
pub const SRC_OPEN: u8 = 91;

/// The source byte `]`: close the innermost open loop.
pub const SRC_CLOSE: u8 = 93;

/// Why a source text is not a program: a loop delimiter without its partner.
#[derive(Debug, Clone, Copy, PartialEq, Eq)]
pub enum ParenError {
    /// A loop opened at this position is never closed.
    RightMissing(usize),
    /// The loop close at this position has no open loop to close.
    LeftMissing(usize),
}

/// The builder's state as a value: the finished top-level atoms and, outermost
/// first, each loop that is still open with the position of its opening byte
/// and the atoms collected in it so far.
pub struct ScanState {
    pub ir: Seq<SpecAtom>,
    pub loops: Seq<(usize, Seq<SpecAtom>)>,
}

/// Appends an atom to the innermost open loop, or to the top level if none is open.
pub open spec fn scan_push(st: ScanState, a: SpecAtom) -> ScanState {
    if st.loops.len() > 0 {
        let top = st.loops.last();
        ScanState { ir: st.ir, loops: st.loops.drop_last().push((top.0, top.1.push(a))) }
    } else {
        ScanState { ir: st.ir.push(a), loops: st.loops }
    }
}

/// The effect of the source byte `c` found at position `pos`.
pub open spec fn scan_step(st: ScanState, pos: usize, c: u8) -> Result<ScanState, ParenError> {
    if c == SRC_INC {
        Ok(scan_push(st, SpecAtom::IncValue(1, 0)))
    } else if c == SRC_DEC {
        Ok(scan_push(st, SpecAtom::IncValue(-1i8, 0)))
    } else if c == SRC_LEFT {
        Ok(scan_push(st, SpecAtom::MovePtr(-1isize)))
    } else if c == SRC_RIGHT {
        Ok(scan_push(st, SpecAtom::MovePtr(1)))
    } else if c == SRC_PRINT {
        Ok(scan_push(st, SpecAtom::Print(0)))
    } else if c == SRC_READ {
        Ok(scan_push(st, SpecAtom::Read(0)))
    } else if c == SRC_OPEN {
        Ok(ScanState { ir: st.ir, loops: st.loops.push((pos, Seq::empty())) })
    } else if c == SRC_CLOSE {
        if st.loops.len() > 0 {
            Ok(
                scan_push(
                    ScanState { ir: st.ir, loops: st.loops.drop_last() },
                    SpecAtom::Loop(st.loops.last().1),
                ),
            )
        } else {
            Err(ParenError::LeftMissing(pos))
        }
    } else {
        Ok(st)
    }
}

/// The state after a left-to-right scan of `input`, or the first unmatched close.
pub open spec fn scan(input: Seq<u8>) -> Result<ScanState, ParenError>
    decreases input.len(),
{
    if input.len() == 0 {
        Ok(ScanState { ir: Seq::empty(), loops: Seq::empty() })
    } else {
        match scan(input.drop_last()) {
            Err(e) => Err(e),
            Ok(st) => scan_step(st, (input.len() - 1) as usize, input.last()),
        }
    }
}

/// What a scan that met no unmatched close yields: the program, or the
/// outermost loop left open.
pub open spec fn scan_result(st: ScanState) -> Result<Seq<SpecAtom>, ParenError> {
    if st.loops.len() > 0 {
        Err(ParenError::RightMissing(st.loops[0].0))
    } else {
        Ok(st.ir)
    }
}

/// The program that a source text denotes, or the reason it denotes none.
pub open spec fn build_spec(input: Seq<u8>) -> Result<Seq<SpecAtom>, ParenError> {
    match scan(input) {
        Err(e) => Err(e),
        Ok(st) => scan_result(st),
    }
}

/// An unmatched close found in a prefix is the result for every extension.
pub proof fn lemma_scan_error_sticks(input: Seq<u8>, n: int)
    requires
        0 <= n <= input.len(),
        scan(input.take(n)) is Err,
    ensures
        scan(input) == scan(input.take(n)),
    decreases input.len() - n,
{
    if n == input.len() {
        assert(input.take(n) =~= input);
    } else {
        assert(input.take(n + 1).drop_last() =~= input.take(n));
        lemma_scan_error_sticks(input, n + 1);
    }
}

/// The number of loops that are open at the end of `s`: opens less closes.
pub open spec fn depth(s: Seq<u8>) -> int
    decreases s.len(),
{
    if s.len() == 0 {
        0
    } else if s.last() == SRC_OPEN {
        depth(s.drop_last()) + 1
    } else if s.last() == SRC_CLOSE {
        depth(s.drop_last()) - 1
    } else {
        depth(s.drop_last())
    }
}

/// No close in `s` comes before the open it would match.
pub open spec fn never_negative(s: Seq<u8>) -> bool {
    forall|n: int| 0 <= n <= s.len() ==> depth(#[trigger] s.take(n)) >= 0
}

/// As many opens as closes, in valid nesting.
pub open spec fn well_nested(s: Seq<u8>) -> bool {
    depth(s) == 0 && never_negative(s)
}

/// Whether the open loops of a scan state are the unclosed opens of `s`: the
/// loop at level `k` was opened at a position where `k` loops were open, and
/// more than `k` have been open ever since.
pub open spec fn frames_of(s: Seq<u8>, loops: Seq<(usize, Seq<SpecAtom>)>) -> bool {
    &&& loops.len() == depth(s)
    &&& forall|k: int|
        0 <= k < loops.len() ==> {
            let p = (#[trigger] loops[k]).0 as int;
            &&& 0 <= p < s.len()
            &&& s[p] == SRC_OPEN
            &&& depth(s.take(p)) == k
            &&& forall|j: int| p < j <= s.len() ==> depth(#[trigger] s.take(j)) > k
        }
}

/// The depth of a concatenation is the sum of the depths.
pub proof fn lemma_depth_concat(a: Seq<u8>, b: Seq<u8>)
    ensures
        depth(a + b) == depth(a) + depth(b),
    decreases b.len(),
{
    if b.len() == 0 {
        assert(a + b =~= a);
    } else {
        assert((a + b).drop_last() =~= a + b.drop_last());
        lemma_depth_concat(a, b.drop_last());
    }
}

/// A scan of a text in which no close comes too early meets no error, and
/// its open loops are the unclosed opens of the text.
pub proof fn lemma_scan_frames(s: Seq<u8>)
    requires
        s.len() <= usize::MAX,
        never_negative(s),
    ensures
        scan(s) is Ok,
        frames_of(s, scan(s)->Ok_0.loops),
    decreases s.len(),
{
    if s.len() == 0 {
    } else {
        let init = s.drop_last();
        let c = s.last();
        assert forall|n: int| 0 <= n <= init.len() implies depth(#[trigger] init.take(n)) >= 0 by {
            assert(init.take(n) =~= s.take(n));
        }
        lemma_scan_frames(init);
        let st = scan(init)->Ok_0;
        assert(s.take(s.len() as int) =~= s);
        assert(depth(s) >= 0);
        let next = scan(s)->Ok_0;
        assert(scan(s) is Ok);
        let old_len = st.loops.len() as int;
        assert forall|k: int| 0 <= k < next.loops.len() implies {
            let p = (#[trigger] next.loops[k]).0 as int;
            &&& 0 <= p < s.len()
            &&& s[p] == SRC_OPEN
            &&& depth(s.take(p)) == k
            &&& forall|j: int| p < j <= s.len() ==> depth(#[trigger] s.take(j)) > k
        } by {
            let p = next.loops[k].0 as int;
            if k < old_len {
                let q = st.loops[k].0 as int;
                assert(p == q);
                assert(init.take(q) =~= s.take(q));
                assert forall|j: int| p < j <= s.len() implies depth(#[trigger] s.take(j)) > k by {
                    if j < s.len() {
                        assert(init.take(j) =~= s.take(j));
                    }
                }
            } else {
                assert(c == SRC_OPEN);
                assert(p == s.len() - 1);
                assert(s.take(p) =~= init);
                assert forall|j: int| p < j <= s.len() implies depth(#[trigger] s.take(j)) > k by {
                }
            }
        }
    }
}

/// A text that is well nested denotes a program.
pub proof fn law_well_nested_builds(s: Seq<u8>)
    requires
        s.len() <= usize::MAX,
        well_nested(s),
    ensures
        build_spec(s) is Ok,
{
    lemma_scan_frames(s);
}

/// A close that follows a well nested text has nothing to close: the result
/// is `LeftMissing` with the position of that close, whatever follows it.
pub proof fn law_unmatched_close(a: Seq<u8>, b: Seq<u8>)
    requires
        a.len() + 1 + b.len() <= usize::MAX,
        well_nested(a),
    ensures
        build_spec(a + seq![SRC_CLOSE] + b) == Err::<Seq<SpecAtom>, ParenError>(
            ParenError::LeftMissing(a.len() as usize),
        ),
{
    let s = a + seq![SRC_CLOSE] + b;
    lemma_scan_frames(a);
    let n = a.len() as int + 1;
    assert(s.take(n).drop_last() =~= a);
    assert(s.take(n).last() == SRC_CLOSE);
    lemma_scan_error_sticks(s, n);
}

/// An open between two well nested texts is never closed: the result is
/// `RightMissing` with the position of that open.
pub proof fn law_unmatched_open(a: Seq<u8>, b: Seq<u8>)
    requires
        a.len() + 1 + b.len() <= usize::MAX,
        well_nested(a),
        well_nested(b),
    ensures
        build_spec(a + seq![SRC_OPEN] + b) == Err::<Seq<SpecAtom>, ParenError>(
            ParenError::RightMissing(a.len() as usize),
        ),
{
    let head = a + seq![SRC_OPEN];
    let s = head + b;
    let at = a.len() as int;
    assert(head.drop_last() =~= a);
    assert(depth(head) == 1);
    assert forall|n: int| 0 <= n <= s.len() implies depth(#[trigger] s.take(n)) >= (if n <= at {
        0int
    } else {
        1int
    }) by {
        if n <= at {
            assert(s.take(n) =~= a.take(n));
        } else {
            assert(s.take(n) =~= head + b.take(n - at - 1));
            lemma_depth_concat(head, b.take(n - at - 1));
        }
    }
    lemma_depth_concat(head, b);
    lemma_scan_frames(s);
    let loops = scan(s)->Ok_0.loops;
    let p = loops[0].0 as int;
    if p < at {
        assert(s.take(at) =~= a);
    } else if p > at {
        assert(depth(s.take(p)) >= 1);
    }
}

/// Whether an atom is one that the builder makes: a step of the cursor by
/// one cell, a change of the current cell by one, a print or a read of the
/// current cell, or a loop of such atoms.
pub open spec fn source_atom(a: SpecAtom) -> bool
    decreases a,
{
    match a {
        SpecAtom::MovePtr(o) => o == 1 || o == -1,
        SpecAtom::IncValue(d, o) => (d == 1 || d == -1) && o == 0,
        SpecAtom::Print(o) => o == 0,
        SpecAtom::Read(o) => o == 0,
        SpecAtom::Loop(body) => source_atoms(body),
        _ => false,
    }
}

/// Whether a program holds nothing but atoms that the builder makes.
pub open spec fn source_atoms(s: Seq<SpecAtom>) -> bool
    decreases s,
{
    forall|i: int| 0 <= i < s.len() ==> source_atom(#[trigger] s[i])
}

/// Whether all atoms that a scan has collected are atoms that the builder makes.
pub open spec fn source_state(st: ScanState) -> bool {
    &&& source_atoms(st.ir)
    &&& forall|k: int| 0 <= k < st.loops.len() ==> source_atoms((#[trigger] st.loops[k]).1)
}

/// One more atom that the builder makes keeps the state of the scan so.
proof fn lemma_source_push(st: ScanState, a: SpecAtom)
    requires
        source_state(st),
        source_atom(a),
    ensures
        source_state(scan_push(st, a)),
{
    let next = scan_push(st, a);
    if st.loops.len() > 0 {
        let top = st.loops.last();
        assert(source_atoms(st.loops[st.loops.len() - 1].1));
        assert forall|i: int| 0 <= i < top.1.push(a).len() implies source_atom(
            #[trigger] top.1.push(a)[i],
        ) by {
            if i < top.1.len() {
                assert(top.1.push(a)[i] == top.1[i]);
            }
        }
        assert forall|k: int| 0 <= k < next.loops.len() implies source_atoms(
            (#[trigger] next.loops[k]).1,
        ) by {
            if k < st.loops.len() - 1 {
                assert(next.loops[k] == st.loops[k]);
            }
        }
    } else {
        assert forall|i: int| 0 <= i < next.ir.len() implies source_atom(#[trigger] next.ir[i]) by {
            if i < st.ir.len() {
                assert(next.ir[i] == st.ir[i]);
            }
        }
    }
}

/// A scan collects nothing but atoms that the builder makes.
proof fn lemma_scan_source(input: Seq<u8>)
    requires
        scan(input) is Ok,
    ensures
        source_state(scan(input)->Ok_0),
    decreases input.len(),
{
    if input.len() > 0 {
        lemma_scan_source(input.drop_last());
        let st = scan(input.drop_last())->Ok_0;
        let c = input.last();
        let pos = (input.len() - 1) as usize;
        if c == SRC_INC {
            lemma_source_push(st, SpecAtom::IncValue(1, 0));
        } else if c == SRC_DEC {
            lemma_source_push(st, SpecAtom::IncValue(-1i8, 0));
        } else if c == SRC_LEFT {
            lemma_source_push(st, SpecAtom::MovePtr(-1isize));
        } else if c == SRC_RIGHT {
            lemma_source_push(st, SpecAtom::MovePtr(1));
        } else if c == SRC_PRINT {
            lemma_source_push(st, SpecAtom::Print(0));
        } else if c == SRC_READ {
            lemma_source_push(st, SpecAtom::Read(0));
        } else if c == SRC_OPEN {
            let next = scan(input)->Ok_0;
            assert forall|k: int| 0 <= k < next.loops.len() implies source_atoms(
                (#[trigger] next.loops[k]).1,
            ) by {
                if k < st.loops.len() {
                    assert(next.loops[k] == st.loops[k]);
                }
            }
        } else if c == SRC_CLOSE {
            let outer = ScanState { ir: st.ir, loops: st.loops.drop_last() };
            assert(source_atoms(st.loops[st.loops.len() - 1].1));
            assert forall|k: int| 0 <= k < outer.loops.len() implies source_atoms(
                (#[trigger] outer.loops[k]).1,
            ) by {
                assert(outer.loops[k] == st.loops[k]);
            }
            lemma_source_push(outer, SpecAtom::Loop(st.loops.last().1));
        }
    }
}

/// A program that is built from a source text holds no store and no
/// multiplication, and every offset in it is zero but that of a move, which
/// is one cell to the left or to the right.
pub proof fn law_built_from_source(input: Seq<u8>)
    requires
        build_spec(input) is Ok,
    ensures
        source_atoms(build_spec(input)->Ok_0),
{
    lemma_scan_source(input);
}

/// Collects atoms while the source is scanned, with a stack of open loops.
pub struct IRBuilder {
    ir: Vec<Atom>,
    loops: Vec<(usize, Vec<Atom>)>,
}

impl View for IRBuilder {
    type V = ScanState;

    closed spec fn view(&self) -> ScanState {
        ScanState {
            ir: self.ir.deep_view(),
            loops: Seq::new(
                self.loops@.len(),
                |i: int| (self.loops@[i].0, self.loops@[i].1.deep_view()),
            ),
        }
    }
}

impl IRBuilder {
    /// A builder that has seen nothing.
    pub fn new() -> (b: Self)
        ensures
            b@ == (ScanState { ir: Seq::empty(), loops: Seq::empty() }),
    {
        let b = IRBuilder { ir: Vec::new(), loops: Vec::new() };
        proof {
            assert(b@.ir =~= Seq::empty());
            assert(b@.loops =~= Seq::empty());
        }
        b
    }

    /// Appends an atom to the innermost open loop, or to the top level.
    pub fn push_atom(&mut self, atom: Atom)
        ensures
            final(self)@ == scan_push(old(self)@, atom.deep_view()),
    {
        match self.loops.pop() {
            Some((pos, mut current_loop)) => {
                push_to(&mut current_loop, atom);
                self.loops.push((pos, current_loop));
                proof {
                    assert(self@.loops =~= scan_push(old(self)@, atom.deep_view()).loops);
                }
            },
            None => {
                push_to(&mut self.ir, atom);
                proof {
                    assert(self@.loops =~= old(self)@.loops);
                }
            },
        }
    }

    /// Opens a loop whose opening byte stands at `pos`.
    pub fn start_loop(&mut self, pos: usize)
        ensures
            final(self)@ == (ScanState {
                ir: old(self)@.ir,
                loops: old(self)@.loops.push((pos, Seq::empty())),
            }),
    {
        let body: Vec<Atom> = Vec::new();
        self.loops.push((pos, body));
        proof {
            assert(body.deep_view() =~= Seq::empty());
            assert(self@.loops =~= old(self)@.loops.push((pos, Seq::empty())));
        }
    }

    /// Closes the innermost open loop; `pos` is where the closing byte stands.
    pub fn end_loop(&mut self, pos: usize) -> (r: Result<(), ParenError>)
        ensures
            scan_step(old(self)@, pos, SRC_CLOSE) == match r {
                Ok(()) => Ok::<ScanState, ParenError>(final(self)@),
                Err(e) => Err::<ScanState, ParenError>(e),
            },
            r is Err ==> final(self)@ == old(self)@,
    {
        match self.loops.pop() {
            Some((_, last_loop)) => {
                proof {
                    lemma_loop_model(last_loop);
                    assert(self@.loops =~= old(self)@.loops.drop_last());
                }
                self.push_atom(Atom::Loop(last_loop));
                Ok(())
            },
            None => {
                proof {
                    assert(self@.loops =~= old(self)@.loops);
                }
                Err(ParenError::LeftMissing(pos))
            },
        }
    }

    /// The finished program, unless a loop is still open.
    pub fn collect(self) -> (r: Result<Vec<Atom>, ParenError>)
        ensures
            scan_result(self@) == match r {
                Ok(ir) => Ok::<Seq<SpecAtom>, ParenError>(ir.deep_view()),
                Err(e) => Err::<Seq<SpecAtom>, ParenError>(e),
            },
    {
        if self.loops.len() > 0 {
            Err(ParenError::RightMissing(self.loops[0].0))
        } else {
            Ok(self.ir)
        }
    }
}

/// Builds the program that `input` denotes.
///
/// Eight bytes are instructions; every other byte is skipped. The result is an
/// error exactly when a loop delimiter has no partner: the first unmatched
/// close if there is one, else the outermost loop left open.
pub fn build_ir(input: &[u8]) -> (r: Result<Vec<Atom>, ParenError>)
    ensures
        build_spec(input@) == match r {
            Ok(ir) => Ok::<Seq<SpecAtom>, ParenError>(ir.deep_view()),
            Err(e) => Err::<Seq<SpecAtom>, ParenError>(e),
        },
{
    let mut ir_builder = IRBuilder::new();
    let mut pos: usize = 0;
    while pos < input.len()
        invariant
            pos <= input.len(),
            scan(input@.take(pos as int)) == Ok::<ScanState, ParenError>(ir_builder@),
        decreases input.len() - pos,
    {
        let c = input[pos];
        proof {
            assert(input@.take(pos as int + 1).drop_last() =~= input@.take(pos as int));
        }
        if c == SRC_INC {
            ir_builder.push_atom(Atom::IncValue(1, 0));
        } else if c == SRC_DEC {
            ir_builder.push_atom(Atom::IncValue(-1, 0));
        } else if c == SRC_LEFT {
            ir_builder.push_atom(Atom::MovePtr(-1));
        } else if c == SRC_RIGHT {
            ir_builder.push_atom(Atom::MovePtr(1));
        } else if c == SRC_PRINT {
            ir_builder.push_atom(Atom::Print(0));
        } else if c == SRC_READ {
            ir_builder.push_atom(Atom::Read(0));
        } else if c == SRC_OPEN {
            ir_builder.start_loop(pos);
        } else if c == SRC_CLOSE {
            match ir_builder.end_loop(pos) {
                Ok(()) => {},
                Err(e) => {
                    proof {
                        lemma_scan_error_sticks(input@, pos as int + 1);
                    }
                    return Err(e);
                },
            }
        }
        pos += 1;
    }
    proof {
        assert(input@.take(pos as int) =~= input@);
    }
    ir_builder.collect()
}

} // verus!
