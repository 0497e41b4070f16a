//! Peer-to-peer video transport: frames are cut into numbered chunks, chunks
//! travel as datagrams, and a receiver glues them back into frames. The STUN
//! helpers find the address under which a peer is reachable.
pub mod frame;
pub mod network;
pub mod transcode;
