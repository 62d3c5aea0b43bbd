//! The optimizer keeps what a program does, for every program whose offsets
//! are small beside the tape: a program that is built from a source text of
//! fewer bytes than half the tape has cells is one.

pub mod built;
pub mod local;
pub mod multiply;
pub mod offsets;
pub mod ring;
pub mod sorting;

use vstd::prelude::*;
use crate::calm::built::lemma_built_calm;
use crate::calm::local::lemma_clean_calm;
use crate::calm::local::lemma_clean_runs;
use crate::calm::local::lemma_combine_calm;
use crate::calm::local::lemma_zero_loops_calm;
use crate::calm::local::lemma_zero_loops_runs;
use crate::calm::multiply::lemma_add_multiply_calm;
use crate::calm::multiply::lemma_add_multiply_static;
use crate::calm::offsets::lemma_offset_op_calm;
use crate::calm::offsets::lemma_offset_op_static;
use crate::calm::ring::calm;
use crate::calm::ring::calm_bound;
use crate::calm::sorting::lemma_reorder_calm;
use crate::calm::sorting::lemma_reorder_static;
use crate::equiv::stays::alike;
use crate::ir::build_spec;
use crate::ir::SpecAtom;
use crate::opt::add_multiply_spec;
use crate::opt::clean_spec;
use crate::opt::combine_spec;
use crate::opt::offset_op_spec;
use crate::opt::reorder_spec;
use crate::opt::run_opts_spec;
use crate::opt::zero_loops_spec;
use crate::semantics::loop_cap;
use crate::semantics::run;
use crate::semantics::Machine;

verus! {

/// The optimized program does what the program does, for every calm program.
///
/// This holds of every state of the machine and every cap on the rounds of
/// a loop that is above what a cell can hold. Both runs end early or neither
/// does; if they end early, then for the same reason and with the same
/// output, input left and tape; if not, they end in the same state.
///
/// It does not hold of every program that is not calm: the optimizer tells
/// cells apart by their offsets, and offsets that lie the length of the tape
/// apart lead to the same cell. Nor does it hold under a cap within the range
/// of a cell, which can stop a loop that the optimizer has replaced.
pub proof fn law_calm_alike(prog: Seq<SpecAtom>, m: Machine, cap: int)
    requires
        m.wf(),
        cap >= 256,
        calm(prog, calm_bound()),
    ensures
        alike(run(run_opts_spec(prog), m, cap), run(prog, m, cap)),
{
    let bound = calm_bound();
    lemma_combine_calm(prog, m, cap, bound);
    let combined = combine_spec(prog);
    lemma_clean_runs(combined, m, cap);
    lemma_clean_calm(combined, bound);
    let cleaned = clean_spec(combined);
    lemma_zero_loops_runs(cleaned, m, cap);
    lemma_zero_loops_calm(cleaned, bound);
    let zeroed = zero_loops_spec(cleaned);
    lemma_offset_op_calm(zeroed, m, cap, bound);
    lemma_offset_op_static(zeroed, bound);
    let folded = offset_op_spec(zeroed);
    lemma_reorder_calm(folded, m, cap, bound);
    lemma_reorder_static(folded, bound);
    let sorted = reorder_spec(folded);
    lemma_add_multiply_calm(sorted, m, cap, bound);
    lemma_add_multiply_static(sorted, bound);
    let multiplied = add_multiply_spec(sorted);
    lemma_combine_calm(multiplied, m, cap, 2 * bound);
    let merged = combine_spec(multiplied);
    lemma_clean_runs(merged, m, cap);
}

/// A program that is built from a source text of fewer than 15000 bytes
/// gives, once optimized, the output that it gives as built, and ends early
/// for the same reason if it does, on every input, with no limit on the
/// rounds of a loop or with a limit of 256 or more.
pub proof fn law_built_alike(source: Seq<u8>, input: Seq<u8>, limit: Option<usize>)
    requires
        source.len() < 15_000,
        build_spec(source) is Ok,
        limit is Some ==> limit->Some_0 >= 256,
    ensures
        ({
            let prog = build_spec(source)->Ok_0;
            let plain = run(prog, Machine::start(input), loop_cap(limit));
            let fast = run(run_opts_spec(prog), Machine::start(input), loop_cap(limit));
            fast.fault == plain.fault && fast.machine.output == plain.machine.output
        }),
{
    lemma_built_calm(source);
    law_calm_alike(build_spec(source)->Ok_0, Machine::start(input), loop_cap(limit));
}

} // verus!
