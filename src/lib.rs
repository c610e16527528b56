//! Reliable, ordered byte streams multiplexed over an unreliable datagram
//! pipe: the per-stream state machine, its retransmission and congestion
//! engine, and the queues that connect it to user-facing handles.

pub mod acks;
pub mod calc;
pub mod congestion;
pub mod inflight;
pub mod message;
pub mod queues;
pub mod reorderer;
pub mod state;
