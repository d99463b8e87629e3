//! An interactive DNS exercise library: it executes user-directed DNS
//! queries through an outside transport, refuses open recursive resolvers,
//! judges submitted answers against the active question, and keeps each
//! user's progress in an append-only session log with a bounded attempt
//! budget and a verified persisted representation.
pub mod addr;
pub mod record;
pub mod codec;
pub mod querying;
pub mod session;
