//! Conversion of controlled-vocabulary registry dumps.
//!
//! Raw affiliation records are sanitized into ASCII text and mapped into a
//! flattened, multilingual output shape; the other vocabulary kinds are
//! declared unsupported.

pub mod errors;
pub mod title;
pub mod vocab;
