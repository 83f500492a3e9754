//! A compiler and interpreter pipeline for an eight-instruction tape language.
//!
//! Source text is filtered down to its instruction symbols, parsed into
//! run-length collapsed commands with matched loop brackets, optimised by a
//! peephole pass, and executed on a circular tape of byte cells.

pub mod brackets;
pub mod command;
pub mod compiler;
pub mod executor;
pub mod lexer;
pub mod machine;
pub mod parser;
pub mod text;

pub use command::{CollapsedCommands, Command, CompiledCollapsedCommand, CompiledCommand};
pub use compiler::{compile, relink};
pub use executor::{decode_output, process_input, ExecutionError};
pub use lexer::Lexer;
pub use machine::{Machine, Status};
pub use parser::{parse_input, StructuralError};
