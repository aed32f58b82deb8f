//! A translator from a stack-based virtual machine language to assembly
//! for a machine with two registers and one flat memory.
//!
//! The library turns the source lines of the modules of a program into
//! the lines of one assembly program:
//!
//! - [`parser`] reads source lines as commands ([`utils`]);
//! - [`resolver`] says how each memory segment is addressed;
//! - [`writer`] is the code generator, and [`translation`] says what it
//!   writes for each command, in the assembly language of [`assembly`];
//! - [`driver`] translates a whole program, its modules in the order of
//!   their names ([`order`]), and reports the first failure ([`error`]).
//!
//! Every function is verified against its contract. Beyond the
//! contracts the library proves what the code it writes does:
//!
//! - [`machine`] is a model of the target machine and of the way an
//!   assembler loads a program into it, and [`reading`] proves that lines
//!   with the same text do the same on it;
//! - [`effect`] proves, for the code of each command, how the stack
//!   pointer moves and what is left on the stack, and that a call and the
//!   return that belongs to it hand the caller its segments back;
//! - [`uniqueness`] proves that no label is defined twice in a
//!   translated program, whatever names the program uses: the labels
//!   carry marks that keep them apart ([`labels`]); and that its static
//!   variables have cells of their own;
//!   [`placement`] proves that the code of each command stands in the
//!   translated program;
//! - [`reproducible`] proves that the translation of a program does not
//!   depend on the order in which its modules are given.
pub mod assembly;
pub mod decimal;
pub mod driver;
pub mod effect;
pub mod error;
pub mod labels;
pub mod machine;
pub mod order;
pub mod parser;
pub mod placement;
pub mod reading;
pub mod reproducible;
pub mod resolver;
pub mod text;
pub mod translation;
pub mod uniqueness;
pub mod utils;
pub mod writer;
