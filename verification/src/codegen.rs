//! The error every code generator and the IR passes report.
use crate::token::Pos;
use vstd::prelude::*;

verus! {

/// An error raised while compiling or running a program: a runtime fault or an
/// emission failure. Carries a source position when one is available.
#[derive(Clone, Debug)]
pub struct CodegenError {
    pub message: String,
    pub pos: Option<Pos>,
}

impl CodegenError {
    pub fn new(message: String, pos: Option<Pos>) -> (r: CodegenError)
        ensures
            r.message@ == message@,
            r.pos == pos,
    {
        CodegenError { message, pos }
    }

    /// An error located at a specific source position.
    pub fn at(pos: Pos, message: String) -> (r: CodegenError)
        ensures
            r.message@ == message@,
            r.pos == Some(pos),
    {
        CodegenError::new(message, Some(pos))
    }
}


/// A native code-generation backend: one target, an (architecture, OS) pair.
pub trait Codegen {
    /// The target triple this backend emits for, e.g. `"x86_64-unknown-linux"`.
    fn name(&self) -> &'static str;
}

} // verus!
