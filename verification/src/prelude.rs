//! The names that a user of the solver needs, in one place.

pub use crate::assignment::Assingment;
pub use crate::model::Constraint;
pub use crate::model::Problem;
pub use crate::model::Solution;
pub use crate::model::Solver;
pub use crate::model::Variable;
pub use crate::names::NameMap;
