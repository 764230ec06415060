//! Gossip-based peer sampling: every node keeps a small, continuously
//! refreshed sample of the other participants of an overlay network and
//! trades it with its neighbours.
//!
//! The crate holds the protocol's logic: the peer record and the message
//! envelope with their wire formats, the bounded view with its merge
//! algorithm, and the decisions a node takes on each sampling cycle and on
//! each message it receives. Sockets, threads and timers are left to the
//! program built around it.

pub mod config;
pub mod display;
pub mod error;
pub mod exchange;
pub mod logging;
pub mod merge;
pub mod message;
pub mod monitor;
pub mod oldest;
pub mod peer;
pub mod random;
pub mod selection;
pub mod text;
pub mod view;

pub use crate::config::Config;
pub use crate::config::ConfigError;
pub use crate::error::DecodeError;
pub use crate::exchange::Outgoing;
pub use crate::exchange::Reaction;
pub use crate::message::Message;
pub use crate::message::MessageType;
pub use crate::monitor::MonitoringConfig;
pub use crate::peer::Peer;
pub use crate::view::PartialView;
