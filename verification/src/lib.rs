//! Warden: capability-based authorization for tool calls.
//!
//! Authority is minted from a trusted task manifest, can only be narrowed by
//! attenuation, is checked at a policy enforcement point and decided by a
//! default-deny policy decision point, and every decision is recorded in a
//! hash-chained audit log.

pub mod text;
pub mod path;
pub mod manifest;
pub mod time;
pub mod digest;
pub mod codec;
pub mod token;
pub mod capability;
pub mod pep;
pub mod pdp;
pub mod sandbox;
pub mod audit;
pub mod tools;
pub mod agent;
pub mod orchestrator;
pub mod agent_loop;
pub mod contrast;
