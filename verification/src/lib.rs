//! Named placeholders for PostgreSQL.
//!
//! SQL is written with `@name` placeholders and turned into the `$1`, `$2`, ...
//! form that the driver understands. The placeholders are numbered in the
//! order in which they first appear, and the values are handed over in that
//! order, one for each distinct placeholder.

pub mod binder;
pub mod expansion;
pub mod laws;
pub mod numberify;
pub mod query;
pub mod statement;
pub mod template;
pub mod text;
pub mod transpose;
pub mod util;
