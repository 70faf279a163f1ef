//! Bridge between LCM UDP multicast traffic and a Zenoh network.
//!
//! This crate holds every rule of the bridge that does not touch a socket or a session: the
//! LCM wire format, fragmentation and reassembly, the mapping of channels to key expressions,
//! the channel filter and the loop prevention. Each function states its behaviour as a contract.
pub mod addr;
pub mod bridge;
pub mod bridge_args_laws;
pub mod bridge_laws;
pub mod clock;
pub mod config;
pub mod fragment;
pub mod fragment_laws;
pub mod lcm_to_zenoh;
pub mod mapping;
pub mod multicast;
pub mod number;
pub mod plugin;
pub mod protocol;
pub mod protocol_laws;
pub mod text;
pub mod transport_laws;
pub mod types;
pub mod url_laws;
pub mod zenoh_to_lcm;

pub use fragment::FragmentReassembler;
pub use multicast::{LcmTransport, LcmTransportConfig};
pub use types::{LcmMessage, LcmUrl};
