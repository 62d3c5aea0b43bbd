//! Writing a program as C source text.

use vstd::prelude::*;
use crate::backend::c::c_program;
pub use crate::backend::c::CBackend;
use crate::ir::Atom;

verus! {

/// Appends the C source text of a program to `writer`.
pub fn write_from_ir(ir: &Vec<Atom>, writer: &mut Vec<u8>) -> (r: Result<(), std::io::Error>)
    ensures
        r is Ok,
        final(writer)@ == old(writer)@ + c_program(ir.deep_view()),
{
    let mut sink: Vec<u8> = Vec::new();
    std::mem::swap(writer, &mut sink);
    let mut backend = CBackend::new(sink);
    let _ = backend.generate_header();
    let _ = backend.generate(ir);
    let _ = backend.generate_footer();
    *writer = backend.into_writer();
    proof {
        assert(writer@ =~= old(writer)@ + c_program(ir.deep_view()));
    }
    Ok(())
}

} // verus!
