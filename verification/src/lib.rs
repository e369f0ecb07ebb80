//! A key-management core for signing blockchain consensus proposals.
//!
//! The crate provides the security-relevant pieces of a validator signing
//! service: the exact canonical wire encoding of the message that is signed,
//! structural validation of inbound messages, a per-chain double-sign guard
//! that enforces strictly monotone signing slots, a registry of signing
//! providers, and the pipeline that ties those together for one request.

pub mod codec;
pub mod commands;
pub mod guard;
pub mod keyring;
pub mod pipeline;
pub mod proposal;
pub mod validate;
