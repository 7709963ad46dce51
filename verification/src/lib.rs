//! Client-side wire protocol for a tracing collector daemon: identifier
//! formats, timestamp representation, and the framed packet layout sent,
//! fire-and-forget, over a connectionless transport.

pub mod epoch;
pub mod error;
pub mod header;
pub mod hexbytes;
pub mod random;
pub mod segment_id;
pub mod trace_id;

pub use crate::epoch::Seconds;
pub use crate::error::Error;
pub use crate::header::packet;
pub use crate::header::Header;
pub use crate::segment_id::SegmentId;
pub use crate::trace_id::TraceId;
