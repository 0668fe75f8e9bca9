//! sol-dap: the verified core of a Debug Adapter Protocol server for the
//! Foundry Solidity debugger.
//!
//! The library holds the logic of the debugger: the console expression
//! language, the stepping through a recorded trace, source positions, and
//! the decoding of EVM state into displayable variables. Running `forge`,
//! reading files and speaking the protocol are left to the program around it.

pub mod adapter;
pub mod config;
pub mod evaluate;
pub mod expr_parser;
pub mod fmt;
pub mod handler;
pub mod launch;
pub mod locals;
pub mod session;
pub mod source_map;
pub mod text;
pub mod trace;
pub mod variables;
pub mod word;
