//! Inference from ternary negative spaces: deducing knowledge from what agents avoid.
//!
//! Each position of a decision space holds a ternary value: avoided (-1), unknown (0)
//! or chosen (+1). Contiguous avoidance regions are located, the gaps between them are
//! analysed, and inference rules predict the state of unexplored positions.
//!
//! Confidences and accuracies are exact fractions (`Ratio`), so every comparison the
//! library makes between them is decided exactly.

pub mod ternary;
pub mod ratio;
pub mod space;
pub mod regions;
pub mod text;
pub mod inference;
pub mod deduction;
pub mod feedback;
pub use feedback::FeedbackValidator;
pub use deduction::DeductionEngine;
pub use inference::{Inference, InferenceRule, InferenceType};
pub use ratio::Ratio;
pub use regions::{AvoidanceMap, Gap, NegativeRegion};
pub use space::TernarySpace;
pub use ternary::Ternary;
