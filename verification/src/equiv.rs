//! The optimizer keeps what a program does, whatever its offsets are, for
//! every run that stays on the tape: one in which no move and no access of a
//! cell goes past the first or the last cell.

pub mod local;
pub mod multiply;
pub mod offsets;
pub mod sorting;
pub mod stays;

use vstd::prelude::*;
use crate::equiv::local::lemma_clean_alike;
use crate::equiv::local::lemma_combine_alike;
use crate::equiv::local::lemma_zero_loops_alike;
use crate::equiv::multiply::lemma_add_multiply_alike;
use crate::equiv::offsets::lemma_offset_op_alike;
use crate::equiv::sorting::lemma_reorder_alike;
use crate::equiv::stays::alike;
use crate::equiv::stays::stays;
use crate::ir::SpecAtom;
use crate::opt::add_multiply_spec;
use crate::opt::clean_spec;
use crate::opt::combine_spec;
use crate::opt::offset_op_spec;
use crate::opt::reorder_spec;
use crate::opt::run_opts_spec;
use crate::opt::zero_loops_spec;
use crate::semantics::run;
use crate::semantics::Machine;

verus! {

/// The optimized program does what the program does, for every run that
/// stays on the tape.
///
/// This holds of every program, every state of the machine and every cap on
/// the rounds of a loop that is above what a cell can hold. Both runs end
/// early or neither does; if they end early, then for the same reason and
/// with the same output, input left and tape; if not, they end in the same
/// state. The optimized run stays on the tape too.
///
/// A run that goes around the tape can come to one cell by two offsets; the
/// optimizer, which tells cells apart by their offsets, is then shown to
/// keep what the program does only if the program is calm.
pub proof fn law_on_tape_alike(prog: Seq<SpecAtom>, m: Machine, cap: int)
    requires
        m.wf(),
        cap >= 256,
        stays(prog, m, cap),
    ensures
        stays(run_opts_spec(prog), m, cap),
        alike(run(run_opts_spec(prog), m, cap), run(prog, m, cap)),
{
    lemma_combine_alike(prog, m, cap);
    let combined = combine_spec(prog);
    lemma_clean_alike(combined, m, cap);
    let cleaned = clean_spec(combined);
    lemma_zero_loops_alike(cleaned, m, cap);
    let zeroed = zero_loops_spec(cleaned);
    lemma_offset_op_alike(zeroed, m, cap);
    let folded = offset_op_spec(zeroed);
    lemma_reorder_alike(folded, m, cap);
    let sorted = reorder_spec(folded);
    lemma_add_multiply_alike(sorted, m, cap);
    let multiplied = add_multiply_spec(sorted);
    lemma_combine_alike(multiplied, m, cap);
    let merged = combine_spec(multiplied);
    lemma_clean_alike(merged, m, cap);
}

} // verus!
