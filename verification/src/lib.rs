//! A buffering adapter that decouples a producer of items from its consumer
//! by a queue between them. Two queue disciplines are offered: an in-memory
//! priority ordering and a persistent FIFO ordering that survives restarts.

pub mod buffer;
pub mod codec;
pub mod engine;
pub mod error;
pub mod laws;

pub use vstd::view::DeepView;

pub use buffer::queue::ExternalBufferQueue;
pub use buffer::queue::PriorityOrder;
pub use buffer::queue::Prioritized;
pub use buffer::sled::ExternalBufferSled;
pub use buffer::ExternalBuffer;
pub use codec::ExternalBufferSerde;
pub use error::make_custom_error;
pub use error::Error;
