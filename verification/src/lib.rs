//! A HolyC compiler core: lexing, printf-spec handling, the SSA IR and its
//! optimisation passes, and the machine-code encoders.

pub mod arm64;
pub mod backend;
pub mod builtins;
pub mod codegen;
pub mod copies;
pub mod destruct;
pub mod fmt;
pub mod interp;
pub mod regalloc;
pub mod sema;
pub mod simplify;
pub mod ir;
pub mod ivsr;
pub mod lexer;
pub mod licm;
pub mod liveness;
pub mod text;
pub mod token;
pub mod x86_64;


