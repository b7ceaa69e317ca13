pub mod ast;
pub mod decls;
pub mod traits;
pub mod types;
