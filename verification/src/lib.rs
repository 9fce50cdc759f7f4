//! Verified core of the DJI O4 Pro telemetry repair tool: MP4 box walking,
//! protobuf field scanning of the embedded orientation telemetry, the
//! meta-track sample table, the in-place slot patch plan, interval detection
//! on boolean masks, and the job bookkeeping used by the front ends.

pub mod bytes;
pub mod error;
pub mod boxes;
pub mod proto;
pub mod scan;
pub mod table;
pub mod patch;
pub mod slots;
pub mod intervals;
pub mod jobs;


