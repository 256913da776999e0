//! A small bash subset interpreted over a file system: lexer, parser,
//! builtins and the evaluator.
//!
//! Supported: variable assignment and `$`/`${}` expansion, single/double
//! quoting, command sequences (`;`, newline, `&&`, `||`), pipelines (`|`),
//! output redirection (`>`, `>>`, `<`), and the `if`/`for`/`while` compound
//! commands. No word splitting after expansion, no globbing, no command
//! substitution, no subshells.
pub mod builtins;
pub mod eval;
pub mod lexer;
pub mod parser;
pub mod replay;
pub mod text_cmds;
