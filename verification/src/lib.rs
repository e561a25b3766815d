//! Verified core of the logwise observability runtime: the facade data model,
//! the `logwise_v1` wire encoder, privacy projection, bounded sinks, the
//! flight recorder, context bookkeeping, foreign-ingress bridges and the
//! format-string parser behind the logging macros.

pub mod model;
pub mod text;
pub mod wire;
pub mod parser;
pub mod lformat;
pub mod dlog;
pub mod macros;
pub mod legacy_macros;
pub mod sinks;
pub mod flight;
pub mod runtime;
pub mod foreign;
pub mod compat;
