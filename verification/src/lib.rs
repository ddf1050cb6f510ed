//! LTP1 teleoperation transport: wire framing, scheduling, receive-side ordering,
//! FEC helpers and shared-memory rings.

pub mod wire;
pub mod error;
pub mod header;
pub mod framer;
pub mod control_envelope;
pub mod video_slice;
pub mod bonding;
pub mod fec;
pub mod receive;
pub mod scheduler;
pub mod shmem;
pub mod session;
pub mod recv_queue;
pub mod jpeg;
pub mod relay;
pub mod gateway;
pub mod identity;
pub mod pacing;
