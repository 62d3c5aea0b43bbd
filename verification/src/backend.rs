//! The interface between a program and what executes or translates it: the
//! handlers that a backend offers, and the walk that calls them.

pub mod c;
pub mod interpreter;

use vstd::prelude::*;
use crate::ir::lemma_loop_model;
use crate::ir::Atom;
use crate::ir::SpecAtom;

verus! {

/// What executes or translates a program: one handler for each kind of atom,
/// between `initialize` and `finalize`.
///
/// Each handler comes with a predicate that relates the backend before the
/// call, the arguments, the backend after the call and the result. A backend
/// states there what its handler does; the walk promises in terms of these
/// predicates which handlers it calls, in which order and in which state. A
/// predicate that a backend does not state holds of everything: such a
/// backend promises nothing of that handler.
///
/// A loop has a handler of its own kind. The walk calls it before each round,
/// with the number of rounds completed, and runs the body once more when it
/// answers `Ok(true)`. A translator answers `true` once, to have the body
/// translated between what it emits before and after it; an executor answers
/// `true` as long as the program's loop goes on.
pub trait Backend: Sized {
    /// What `finalize` hands out.
    type Payload;

    /// Why a handler fails.
    type Error;

    /// The backend's invariant. Its constructor establishes it, every handler
    /// needs it and keeps it. A backend without an invariant need not state one.
    open spec fn ready(&self) -> bool {
        true
    }

    /// What `initialize` does.
    open spec fn initialized(pre: Self, post: Self, r: Result<(), Self::Error>) -> bool {
        true
    }

    /// What the handler of `atom` does, for every atom but a loop.
    open spec fn handled(pre: Self, atom: SpecAtom, post: Self, r: Result<(), Self::Error>) -> bool {
        true
    }

    /// What `push_loop` does for a loop with this body after `rounds` rounds.
    open spec fn loop_handled(
        pre: Self,
        body: Seq<SpecAtom>,
        rounds: usize,
        post: Self,
        r: Result<bool, Self::Error>,
    ) -> bool {
        true
    }

    /// What `finalize` does.
    open spec fn finalized(pre: Self, r: Result<Self::Payload, Self::Error>) -> bool {
        true
    }

    /// Called once, before any atom.
    fn initialize(&mut self) -> (r: Result<(), Self::Error>)
        requires
            old(self).ready(),
        ensures
            final(self).ready(),
            Self::initialized(*old(self), *final(self), r),
    ;

    /// Called once, after the last atom; it consumes the backend.
    fn finalize(self) -> (r: Result<Self::Payload, Self::Error>)
        requires
            self.ready(),
        ensures
            Self::finalized(self, r),
    ;

    /// The handler of a move.
    fn push_move_ptr(&mut self, offset: isize) -> (r: Result<(), Self::Error>)
        requires
            old(self).ready(),
        ensures
            final(self).ready(),
            Self::handled(*old(self), SpecAtom::MovePtr(offset), *final(self), r),
    ;

    /// The handler of a store.
    fn push_set_value(&mut self, value: u8, offset: isize) -> (r: Result<(), Self::Error>)
        requires
            old(self).ready(),
        ensures
            final(self).ready(),
            Self::handled(*old(self), SpecAtom::SetValue(value, offset), *final(self), r),
    ;

    /// The handler of an increment.
    fn push_inc_value(&mut self, inc: i8, offset: isize) -> (r: Result<(), Self::Error>)
        requires
            old(self).ready(),
        ensures
            final(self).ready(),
            Self::handled(*old(self), SpecAtom::IncValue(inc, offset), *final(self), r),
    ;

    /// The handler of a print.
    fn push_print(&mut self, offset: isize) -> (r: Result<(), Self::Error>)
        requires
            old(self).ready(),
        ensures
            final(self).ready(),
            Self::handled(*old(self), SpecAtom::Print(offset), *final(self), r),
    ;

    /// The handler of a read.
    fn push_read(&mut self, offset: isize) -> (r: Result<(), Self::Error>)
        requires
            old(self).ready(),
        ensures
            final(self).ready(),
            Self::handled(*old(self), SpecAtom::Read(offset), *final(self), r),
    ;

    /// The handler of a multiplication.
    fn push_multiply(&mut self, factor: i8, offset: isize) -> (r: Result<(), Self::Error>)
        requires
            old(self).ready(),
        ensures
            final(self).ready(),
            Self::handled(*old(self), SpecAtom::Multiply(factor, offset), *final(self), r),
    ;

    /// Called at a loop before each round, with the number of rounds that the
    /// walk has completed since it came to the loop. `Ok(true)` asks for one
    /// more round; the count of rounds must then have room to grow.
    fn push_loop(&mut self, sub: &Vec<Atom>, rounds: usize) -> (r: Result<bool, Self::Error>)
        requires
            old(self).ready(),
        ensures
            final(self).ready(),
            Self::loop_handled(*old(self), sub.deep_view(), rounds, *final(self), r),
            r == Ok::<bool, Self::Error>(true) ==> rounds < usize::MAX,
    ;
}

/// Holds of every state and result; it names the state that a walk passes
/// through where a predicate below says that there is one.
pub open spec fn passes<B: Backend>(state: B, r: Result<(), B::Error>) -> bool {
    true
}

/// Holds of every state and answer; it names the state in which a loop's
/// handler has answered where a predicate below says that there is one.
pub open spec fn answers<B: Backend>(state: B, t: Result<bool, B::Error>) -> bool {
    true
}

/// Whether a walk over `prog` that starts with the backend in state `pre` can
/// end with the backend in state `post` and the result `r`: the handlers of
/// the atoms are called in order, each in the state that the one before left,
/// and the first failure ends the walk.
pub open spec fn walked<B: Backend>(
    pre: B,
    prog: Seq<SpecAtom>,
    post: B,
    r: Result<(), B::Error>,
) -> bool
    decreases prog, 0int, 0int,
{
    if prog.len() == 0 {
        post == pre && r is Ok
    } else {
        exists|mid: B, r1: Result<(), B::Error>|
            {
                &&& #[trigger] passes(mid, r1)
                &&& walked(pre, prog.drop_last(), mid, r1)
                &&& match r1 {
                    Err(e) => post == mid && r == r1,
                    Ok(_) => atom_walked(mid, prog.last(), post, r),
                }
            }
    }
}

/// Whether the walk over one atom can lead from `pre` to `post` and `r`.
pub open spec fn atom_walked<B: Backend>(
    pre: B,
    atom: SpecAtom,
    post: B,
    r: Result<(), B::Error>,
) -> bool
    decreases atom, 0int, 0int,
{
    match atom {
        SpecAtom::Loop(body) => loop_walked(pre, body, 0, post, r),
        _ => B::handled(pre, atom, post, r),
    }
}

/// Whether the walk over a loop that has completed `rounds` rounds can lead
/// from `pre` to `post` and `r`: the loop's handler is asked; on `Ok(false)`
/// the walk goes on behind the loop; on `Ok(true)` the body is walked and the
/// handler is asked again.
pub open spec fn loop_walked<B: Backend>(
    pre: B,
    body: Seq<SpecAtom>,
    rounds: usize,
    post: B,
    r: Result<(), B::Error>,
) -> bool
    decreases body, 1int, usize::MAX - rounds,
{
    exists|asked: B, t: Result<bool, B::Error>|
        {
            &&& #[trigger] answers(asked, t)
            &&& B::loop_handled(pre, body, rounds, asked, t)
            &&& match t {
                Err(e) => post == asked && r == Err::<(), B::Error>(e),
                Ok(again) => if !again {
                    post == asked && r is Ok
                } else {
                    &&& rounds < usize::MAX
                    &&& exists|after: B, r2: Result<(), B::Error>|
                        {
                            &&& #[trigger] passes(after, r2)
                            &&& walked(asked, body, after, r2)
                            &&& match r2 {
                                Err(e) => post == after && r == r2,
                                Ok(_) => loop_walked(
                                    after,
                                    body,
                                    (rounds + 1) as usize,
                                    post,
                                    r,
                                ),
                            }
                        }
                },
            }
        }
}

/// Whether `use_backend` on a backend in state `pre` can return `r`.
pub open spec fn used<B: Backend>(
    pre: B,
    prog: Seq<SpecAtom>,
    r: Result<B::Payload, B::Error>,
) -> bool {
    exists|started: B, r0: Result<(), B::Error>|
        {
            &&& #[trigger] passes(started, r0)
            &&& B::initialized(pre, started, r0)
            &&& match r0 {
                Err(e) => r == Err::<B::Payload, B::Error>(e),
                Ok(_) => exists|ended: B, r1: Result<(), B::Error>|
                    {
                        &&& #[trigger] passes(ended, r1)
                        &&& walked(started, prog, ended, r1)
                        &&& match r1 {
                            Err(e) => r == Err::<B::Payload, B::Error>(e),
                            Ok(_) => B::finalized(ended, r),
                        }
                    },
            }
        }
}

/// A walk over a program, from a walk over all but its last atom and what
/// follows it.
pub proof fn lemma_walk_extend<B: Backend>(
    pre: B,
    prog: Seq<SpecAtom>,
    mid: B,
    r1: Result<(), B::Error>,
    post: B,
    r: Result<(), B::Error>,
)
    requires
        prog.len() > 0,
        walked(pre, prog.drop_last(), mid, r1),
        match r1 {
            Err(e) => post == mid && r == r1,
            Ok(_) => atom_walked(mid, prog.last(), post, r),
        },
    ensures
        walked(pre, prog, post, r),
{
    assert(passes(mid, r1));
}

/// A walk over a loop, from the answer of its handler and what follows it.
pub proof fn lemma_loop_walk_extend<B: Backend>(
    pre: B,
    body: Seq<SpecAtom>,
    rounds: usize,
    asked: B,
    t: Result<bool, B::Error>,
    after: B,
    r2: Result<(), B::Error>,
    post: B,
    r: Result<(), B::Error>,
)
    requires
        B::loop_handled(pre, body, rounds, asked, t),
        match t {
            Err(e) => post == asked && r == Err::<(), B::Error>(e),
            Ok(again) => if !again {
                post == asked && r is Ok
            } else {
                &&& rounds < usize::MAX
                &&& walked(asked, body, after, r2)
                &&& match r2 {
                    Err(e) => post == after && r == r2,
                    Ok(_) => loop_walked(after, body, (rounds + 1) as usize, post, r),
                }
            },
        },
    ensures
        loop_walked(pre, body, rounds, post, r),
{
    assert(answers(asked, t));
    assert(passes(after, r2));
}

/// A walk that succeeded has every successful result.
pub proof fn lemma_walk_result<B: Backend>(
    pre: B,
    prog: Seq<SpecAtom>,
    post: B,
    r1: Result<(), B::Error>,
    r2: Result<(), B::Error>,
)
    requires
        walked(pre, prog, post, r1),
        r1 is Ok,
        r2 is Ok,
    ensures
        walked(pre, prog, post, r2),
{
    assert(r1->Ok_0 == ());
    assert(r2->Ok_0 == ());
    assert(r1 == r2);
}

/// A walk that failed on a prefix of a program is a walk over the program.
pub proof fn lemma_walk_failed<B: Backend>(
    pre: B,
    prog: Seq<SpecAtom>,
    n: int,
    post: B,
    r: Result<(), B::Error>,
)
    requires
        0 <= n <= prog.len(),
        r is Err,
        walked(pre, prog.take(n), post, r),
    ensures
        walked(pre, prog, post, r),
    decreases prog.len() - n,
{
    if n == prog.len() {
        assert(prog.take(n) =~= prog);
    } else {
        assert(prog.take(n + 1).drop_last() =~= prog.take(n));
        lemma_walk_extend(pre, prog.take(n + 1), post, r, post, r);
        lemma_walk_failed(pre, prog, n + 1, post, r);
    }
}

/// Calls the handler of every atom of the program, in order, and goes into
/// the body of a loop as often as the loop's handler asks; the first failure
/// ends the walk.
#[verifier::loop_isolation(false)]
pub fn push_atoms<B: Backend>(backend: &mut B, ir: &Vec<Atom>) -> (r: Result<(), B::Error>)
    requires
        old(backend).ready(),
    ensures
        final(backend).ready(),
        walked(*old(backend), ir.deep_view(), *final(backend), r),
    decreases ir, 0int,
{
    let ghost prog = ir.deep_view();
    let ghost start = *backend;
    let ghost last = Ok::<(), B::Error>(());
    let mut i: usize = 0;
    while i < ir.len()
        invariant
            i <= ir.len(),
            backend.ready(),
            prog == ir.deep_view(),
            last is Ok,
            walked(start, prog.take(i as int), *backend, last),
        decreases ir.len() - i,
    {
        let ghost before = *backend;
        proof {
            assert(prog.take(i as int + 1).drop_last() =~= prog.take(i as int));
            assert(prog.take(i as int + 1).last() == ir[i as int].deep_view());
        }
        let r = push_atom(backend, &ir[i]);
        proof {
            lemma_walk_extend(start, prog.take(i as int + 1), before, last, *backend, r);
            last = r;
        }
        match r {
            Ok(()) => {},
            Err(e) => {
                proof {
                    lemma_walk_failed(start, prog, i as int + 1, *backend, r);
                }
                return Err(e);
            },
        }
        i += 1;
    }
    proof {
        assert(prog.take(prog.len() as int) =~= prog);
    }
    let r = Ok(());
    proof {
        lemma_walk_result(start, prog, *backend, last, r);
    }
    r
}

/// Calls the handler of one atom; for a loop, see `push_atoms`.
pub fn push_atom<B: Backend>(backend: &mut B, atom: &Atom) -> (r: Result<(), B::Error>)
    requires
        old(backend).ready(),
    ensures
        final(backend).ready(),
        atom_walked(*old(backend), atom.deep_view(), *final(backend), r),
    decreases atom, 0int,
{
    match atom {
        Atom::MovePtr(offset) => backend.push_move_ptr(*offset),
        Atom::SetValue(value, offset) => backend.push_set_value(*value, *offset),
        Atom::IncValue(inc, offset) => backend.push_inc_value(*inc, *offset),
        Atom::Print(offset) => backend.push_print(*offset),
        Atom::Read(offset) => backend.push_read(*offset),
        Atom::Multiply(factor, offset) => backend.push_multiply(*factor, *offset),
        Atom::Loop(sub) => {
            proof {
                lemma_loop_model(*sub);
            }
            walk_loop(backend, sub)
        },
    }
}

/// Walks a loop: asks the loop's handler before each round and walks the body
/// as long as it answers `Ok(true)`.
#[verifier::loop_isolation(false)]
pub fn walk_loop<B: Backend>(backend: &mut B, sub: &Vec<Atom>) -> (r: Result<(), B::Error>)
    requires
        old(backend).ready(),
    ensures
        final(backend).ready(),
        loop_walked(*old(backend), sub.deep_view(), 0, *final(backend), r),
    decreases sub, 1int,
{
    let ghost body = sub.deep_view();
    let ghost start = *backend;
    let mut rounds: usize = 0;
    loop
        invariant
            backend.ready(),
            body == sub.deep_view(),
            forall|post: B, r: Result<(), B::Error>| #[trigger]
                loop_walked(*backend, body, rounds, post, r) ==> loop_walked(
                    start,
                    body,
                    0,
                    post,
                    r,
                ),
        decreases usize::MAX - rounds,
    {
        let ghost before = *backend;
        let t = backend.push_loop(sub, rounds);
        let ghost asked = *backend;
        match t {
            Ok(true) => {},
            Ok(false) => {
                proof {
                    lemma_loop_walk_extend(
                        before,
                        body,
                        rounds,
                        asked,
                        t,
                        asked,
                        Ok::<(), B::Error>(()),
                        asked,
                        Ok::<(), B::Error>(()),
                    );
                }
                return Ok(());
            },
            Err(e) => {
                proof {
                    lemma_loop_walk_extend(
                        before,
                        body,
                        rounds,
                        asked,
                        t,
                        asked,
                        Ok::<(), B::Error>(()),
                        asked,
                        Err::<(), B::Error>(e),
                    );
                }
                return Err(e);
            },
        }
        let r2 = push_atoms(backend, sub);
        let ghost after = *backend;
        match r2 {
            Ok(()) => {},
            Err(e) => {
                proof {
                    lemma_loop_walk_extend(before, body, rounds, asked, t, after, r2, after, r2);
                }
                return Err(e);
            },
        }
        proof {
            assert forall|post: B, r: Result<(), B::Error>| #[trigger]
                loop_walked(after, body, (rounds + 1) as usize, post, r) implies loop_walked(
                start,
                body,
                0,
                post,
                r,
            ) by {
                lemma_loop_walk_extend(before, body, rounds, asked, t, after, r2, post, r);
            }
        }
        rounds += 1;
    }
}

/// Initializes the backend, walks the program, and finalizes the backend;
/// the first failure is the result.
pub fn use_backend<B: Backend>(backend: B, ir: &Vec<Atom>) -> (r: Result<B::Payload, B::Error>)
    requires
        backend.ready(),
    ensures
        used(backend, ir.deep_view(), r),
{
    let mut backend = backend;
    let ghost pre = backend;
    let r0 = backend.initialize();
    let ghost started = backend;
    match r0 {
        Ok(()) => {},
        Err(e) => {
            proof {
                assert(passes(started, r0));
            }
            return Err(e);
        },
    }
    let r1 = push_atoms(&mut backend, ir);
    let ghost ended = backend;
    match r1 {
        Ok(()) => {},
        Err(e) => {
            proof {
                assert(passes(started, r0));
                assert(passes(ended, r1));
            }
            return Err(e);
        },
    }
    let r = backend.finalize();
    proof {
        assert(passes(started, r0));
        assert(passes(ended, r1));
    }
    r
}

} // verus!
