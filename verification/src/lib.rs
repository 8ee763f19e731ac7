//! Event ingestion, classification and fan-out for a combat-loss feed.
//!
//! The library holds the verified core of the pipeline: the domain model of a
//! normalized event, the per-tenant subscription registry with its persisted
//! form, the classifier that matches an event against a tenant's follow
//! criteria, the bounded recent-activity window, and the decoding of upstream
//! payloads with required-field tolerance. Network transport, the chat
//! platform client and rendering live outside the library.

pub mod classify;
pub mod codec;
pub mod commands;
pub mod json;
pub mod models;
pub mod registry;
pub mod window;
