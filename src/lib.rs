//! A small textual data format with a pretty-printing serializer and a
//! type-directed parser, and the runtime-version bookkeeping built beside it.
//!
//! `grammar` states the text of every value. `ser` writes exactly that text;
//! `de` reads a value of an expected `shape` back from it, under any config,
//! and reports errors at the line and column where they occur; `readback`
//! states which values read back from their text. `laws` proves properties
//! of the layout. `runtime`, `conf` and `launch` decide where
//! runtimes live, what a configuration holds and how a program is started in
//! a scope, from facts that the caller gathers.

pub mod conf;
pub mod config;
pub mod de;
pub mod error;
pub mod grammar;
pub mod launch;
pub mod laws;
pub mod numeric;
pub mod runtime;
pub mod readback;
pub mod ser;
pub mod shape;
pub mod value;

pub use config::{DelimiterType, PrettyConfig};
pub use de::from_str;
pub use error::{Error, Iterable};
pub use launch::exec;
pub use runtime::{Runtime, RuntimeMetadata};
pub use ser::{to_string, to_string_pretty, Serializer};
pub use shape::{Shape, VariantShape};
pub use value::Value;
