//! Reading and writing the dependency specifiers of PEP 508, with the versions of PEP 440 they
//! name.

pub mod marker;
pub mod number;
pub mod operator;
pub mod requirement;
pub mod round_trip;
pub mod spelling;
pub mod settling;
pub mod stable;
pub mod version;
pub mod version_op;

pub use marker::MarkerExpr;
pub use number::Number;
pub use operator::Operator;
pub use requirement::{Requirement, names_a_distribution};
pub use version::{Version, is_valid_version};
pub use version_op::VersionOp;
