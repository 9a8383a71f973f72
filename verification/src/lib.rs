pub mod closeness;
pub mod kad2;
pub mod kademlia;
pub mod key;
pub mod net2;
pub mod pairs;
pub mod proto2;
pub mod req2;
pub mod rout2;
pub mod routing;
pub mod state2;
