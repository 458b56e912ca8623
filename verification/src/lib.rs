//! Core of a PostgreSQL-compatible connection proxy: the startup-phase wire
//! protocol (framing, codec, reader, authentication) and the session
//! bookkeeping (cancellation registry, parameter replay) that a proxy
//! front-end drives. The surrounding socket I/O lives with the caller; every
//! decision and every byte layout is made here, under contract.

pub mod auth;
pub mod codec;
pub mod proxy;
pub mod registry;
pub mod startup;
pub mod wire;
