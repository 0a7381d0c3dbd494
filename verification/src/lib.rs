//! # guardc — GUARD to FLUX compiler
//!
//! A constraint-specification compiler that targets the FLUX stack machine
//! and emits proof certificates.
//!
//! ```text
//! CIR -> LCIR -> FLUX bytecode + proof certificate
//! ```
//!
//! | Module | Purpose |
//! |--------|---------|
//! | `ast` | Raw syntax tree from the parser |
//! | `cir` | Constraint IR: relational, quantified, temporal |
//! | `lcir` | Lowered CIR: flat, A-normal form, explicit control flow |
//! | `lower` | Lowering passes; `lowering` says what they do |
//! | `codegen` | LCIR to FLUX bytecode; `flux` has the instructions |
//! | `certificate` | Certificate construction; `smt` has the formulas |
//! | `compiler` | The pipeline |
//! | `layout` | Where lowered programs keep their variables and histories |
//! | `order` | That lowered programs read only what has a value |
//! | `meaning` | What expressions and programs mean, and that lowering keeps it |
//! | `refusal` | Which expressions are not lowered |
//! | `expansion` | What makes a difference to the code of quantifiers |
//! | `quantifiers` | What quantifiers and temporal operators say |
//! | `cycle` | What a cycle of the constraint loop checks |
//! | `room` | When there is room for what is lowered |
//! | `sexpr` | That formulas are read back as what they are those of |
//! | `stack` | What bytecode does, and that it does what the program does |

pub mod ast;
pub mod binary64;
pub mod certificate;
pub mod cir;
pub mod codegen;
pub mod compiler;
pub mod cycle;
pub mod debug;
pub mod digest;
pub mod error;
pub mod expansion;
pub mod flux;
pub mod layout;
pub mod lcir;
pub mod lower;
pub mod lowering;
pub mod meaning;
pub mod order;
pub mod quantifiers;
pub mod refusal;
pub mod room;
pub mod sexpr;
pub mod smt;
pub mod stack;
pub mod table;
pub mod text;
pub mod unit;

pub use compiler::compile;
pub use compiler::CompileOutput;
pub use error::GuardError;
pub use error::Result;
pub use error::Span;
