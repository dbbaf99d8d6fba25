//! Coordination core for peers that share one screen broadcast at a time:
//! an exclusive broadcast lock, and a signaling relay that lets the peers of
//! a room find each other and pass connection-setup messages along.
pub mod lock;
pub mod message;
pub mod relay;
pub mod session;
