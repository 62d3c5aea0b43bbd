//! A small compiler toolchain for a language of eight instructions on a tape
//! of bytes: a builder of the intermediate representation, an optimizer, the
//! interface to backends, an interpreter, and a translator to C.

pub mod backend;
pub mod c_backend;
pub mod calm;
pub mod equiv;
pub mod interpreter;
pub mod ir;
pub mod opt;
pub mod semantics;
pub mod utils;
