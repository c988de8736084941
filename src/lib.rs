//! A publish/subscribe message broker's routing core: the framed wire format, the table of
//! peers and channels, and the fan-out of inbound frames to every other subscriber.

pub mod bench;
pub mod codec;
pub mod messaging;
pub mod server;
