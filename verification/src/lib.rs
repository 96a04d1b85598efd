//! A compiler from WBF, a macro-rich superset of Brainfuck, down to plain
//! Brainfuck text, together with a length-minimising optimizer.
//!
//! The expander ([`wbf`]) walks the syntax tree ([`ast`]), resolves macros
//! and variables through nested lexical scopes ([`scopes`]), rejects
//! recursion, and flattens everything to basic instructions.  The optimizer
//! ([`optimizer`]) folds runs and rewrites large constants as multiplication
//! loops when that is textually shorter; [`machine`] gives the output
//! language a small tape-machine model and proves the fold sound on
//! straight-line code.  Parsing the concrete grammar and the command line
//! are left to the surrounding application.
pub mod ast;
pub mod machine;
pub mod optimizer;
pub mod scopes;
pub mod wbf;
