//! Dynamic-linking core of a WebAssembly host runtime.
//!
//! The host lets a running guest module load further modules and call their
//! exports by name. This crate holds the rules of that service, each with a
//! contract that Verus proves:
//!
//! * [`marshal`] copies a bounded, validated text out of guest memory;
//! * [`registry`] hands out integer handles for live instances;
//! * [`resolver`] orders a module's import graph for instantiation;
//! * [`bridge`] sequences the two guest-callable entry points;
//! * [`environment`] decides how a generic environment import is satisfied.
//!
//! Compiling, instantiating and running guest code is the embedder's part:
//! it performs each action the library asks for and reports back what the
//! engine answered.

pub mod error;
pub mod marshal;
pub mod registry;
pub mod resolver;
pub mod bridge;
pub mod environment;
