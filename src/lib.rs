//! An interpreter for a seven-symbol, hand-emoji dialect of Brainfuck.
//!
//! The pipeline has three stages: [`parse_hand_code`] turns text into
//! [`Instruction`]s, [`calc_wormholes`] pairs the loop markers into a
//! [`JumpTable`], and [`Engine`] runs the program against a growable byte tape.
//! [`run_hand_ast`] chains the last two.
pub mod instruction;
pub mod lexer;
pub mod resolver;
pub mod engine;

pub use instruction::Instruction;
pub use lexer::{parse_hand_code, ParseError};
pub use engine::{run_hand_ast, Engine, Fault, RunError};
pub use resolver::{calc_wormholes, JumpTable, ResolveError};
