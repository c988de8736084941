pub mod channel;
pub mod errors;
pub mod msg;
pub mod peer;
pub mod peer_map;
pub mod router;
