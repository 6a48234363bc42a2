//! Translation of the intermediate representation into freestanding C.
pub mod c_func;
pub mod code_file;
pub mod compile;
pub mod decimal;
pub mod inst_translator;
pub mod text_laws;

pub use c_func::CFunction;
pub use code_file::{AddFuncError, CodeFile};
pub use compile::{compile_function, within_limits, CompileError, CompileOptions};
