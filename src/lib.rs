//! An interpreter toolchain for the AWA5.0 stack machine: the bubble abyss,
//! the awa/wa bitstream codec, the instruction set and its executor, and the
//! assembler for textual instruction listings.
pub mod awacpu;
pub mod awassembler;
pub mod errors;

pub use awacpu::awascii::{awascii, ord};
pub use awacpu::bubblestack::{BubbleItem, BubbleStack, Comparison};
pub use awacpu::{AwaCPU, Awatism, Operation, Output};
pub use awassembler::{awassemble, handle_line, print_awatisms, string_to_awatism};
pub use errors::{AwawaError, AwawaLoadError, AwawaLoadResult, AwawaResult};
