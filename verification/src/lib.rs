//! Resolution of request definitions: header inheritance across directory
//! scopes and placeholder interpolation.
//!
//! A request definition names an address, a method, headers, query
//! parameters and a body, any of which may hold placeholders. Resolving it
//! gives the request the headers of the directories above it and replaces
//! every placeholder. Reading files and sending the request are left to the
//! caller.

pub mod dict;
pub mod environment;
pub mod error;
pub mod inherit;
pub mod interpolate;
pub mod json;
pub mod locate;
pub mod request;
pub mod text;

pub use crate::dict::{Dict, Headers, Params};
pub use crate::environment::Environment;
pub use crate::error::{InterpolationError, KuiperError, KuiperResult};
pub use crate::inherit::HeaderFile;
pub use crate::locate::{Entry, EntryKind, Search};
pub use crate::request::Request;
