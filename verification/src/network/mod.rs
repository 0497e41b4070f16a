//! The network side: finding one's public address with STUN, turning chunks
//! into datagrams, and turning received datagrams back into frames.
pub mod connect;
pub mod recv;
pub mod send;
