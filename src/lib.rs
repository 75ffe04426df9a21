pub mod addr;
pub mod arrays;
pub mod classifier;
pub mod command;
pub mod endpoint;
pub mod event;
pub mod maps;
pub mod policy;
pub mod ring;
pub mod status;

pub use addr::SocketAddrV4;
pub use classifier::{firewall, SharedMaps, Verdict};
pub use command::{Command, CommandDecoder, Error};
pub use endpoint::{Endpoint, EndpointPair, Peer};
pub use event::{Event, EventKind, PowBytes};
pub use policy::{BlockingReason, MapUpdate};
pub use status::Status;
