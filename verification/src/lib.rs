pub mod errors;
pub mod feedbacks;
pub mod instruction;
pub mod operation;
pub mod program;
pub mod target;
pub mod text;
pub mod timer;
pub mod random;
pub mod variable;
pub mod wire;

pub use errors::ProgramValidationError;
pub use instruction::{Instruction, InstructionContext};
pub use operation::Operation;
pub use program::{Program, ProgramContext};
pub use variable::{Protocol, Variable};
pub mod builder;
pub mod compiler;
pub mod corpus;
pub mod corpus_dir;
pub mod duration;
pub mod generators;
pub mod init;
pub mod minimizers;
pub mod mutators;
pub mod artifact;
pub mod guided;
pub mod render;
pub mod campaign;
pub mod monitor;
pub mod libraries;
pub mod files;
pub mod nops;
pub mod fuzzer;
pub mod observer;
pub use builder::{IndexedVariable, ProgramBuilder};
