//! A compiler and an engine for branching dialogue scripts.
//!
//! A script is a set of named procedures made of messages, pauses, choices
//! and calls. The code generator lowers every procedure to instructions
//! with local addresses, the linker lays the procedures out in one address
//! space, and the engine runs the result step by step, handing control back
//! to its host whenever it has something to show or to ask.

pub mod document;
pub mod linker;
pub mod opcode_loader;
pub mod opcode_saver;
pub mod parser;
pub mod tables;
pub mod translator;
pub mod vm;
