//! Deserialization of any type that `facet` describes, from any format that can say what it reads
//! next.
//!
//! A [`Format`] reads the input piece by piece. [`deserialize`] keeps a stack of instructions,
//! asks the format for the next piece, and builds the value with `facet_reflect`.
//!
//! Numbers for floating-point fields are handed to the caller: see [`Progress`].
pub mod document_laws;
pub mod driver;
pub mod ending_laws;
pub mod error;
pub mod instruction;
pub mod laws;
pub mod list;
pub mod number_laws;
pub mod number_target;
pub mod numeric;
pub mod object;
pub mod operation_laws;
pub mod partial;
pub mod pop;
pub mod reading_laws;
pub mod runner;
pub mod scalar;
pub mod scalar_value;
pub mod shape;
pub mod span;
pub mod stack_laws;
pub mod text_laws;
pub mod value;

pub use driver::{
    deserialize, deserialize_wip, resume, Advance, Answer, Format, NextData, PendingFloat, Progress,
};
pub use error::{DeserError, DeserErrorKind};
pub use instruction::{Instruction, PopReason, ValueReason};
pub use number_target::{FloatRequest, FloatWidth};
pub use numeric::{Float64, Number, NumericConvert};
pub use runner::StackRunner;
pub use scalar::{Expectation, Outcome, Scalar};
pub use span::{Span, Spanned};
