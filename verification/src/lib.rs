//! Frame format, bounded backlogs and frame batching for moving log records over UDP.
pub mod ring;
pub mod types;
pub mod frame;
pub mod encoder;
pub mod stream;
pub mod pool;
pub mod mock;
