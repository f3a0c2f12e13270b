//! Code generation for contract state: the byte layout of a contract's encoded
//! state, the script fragments that encode, frame-check and decode it, and the
//! statement compiler that drives them.

pub mod error;
pub mod opcodes;
pub mod types;
pub mod push;
pub mod layout;
pub mod framing;
pub mod script;
pub mod expr;
pub mod stack;
pub mod type_map;
pub mod codegen;
pub mod state;
pub mod output;
pub mod ast;
pub mod locals;
pub mod recorder;
pub mod statement;
pub mod state_read;
pub mod entrypoint;
pub mod balance;
pub mod machine;

