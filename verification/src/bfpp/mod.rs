//! The preprocessor: include resolution, comment stripping and `@repeat`
//! expansion, in that order.
//!
//! The file system stays outside: [`includes::Sources`] holds what it has to
//! say, and [`includes::resolve`] says what is missing from it.

pub mod cycles;
pub mod driver;
pub mod error;
pub mod includes;
pub mod lines;
pub mod plain;
pub mod repeat;

pub use driver::preprocess;
pub use error::Error;
pub use includes::resolve_includes;
