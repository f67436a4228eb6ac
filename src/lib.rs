//! Sign-request authorization core of a cosigning daemon.
//!
//! The daemon co-signs, for each unvaulted output, at most one spending
//! transaction over its whole life. This crate holds the ledger of
//! output-to-transaction bindings, the request validator, the per-connection
//! session state machine and the argument handling, each with its contract.
pub mod args;
pub mod laws;
pub mod ledger;
pub mod outref;
pub mod session;
pub mod validator;
