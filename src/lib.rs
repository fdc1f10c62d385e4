//! A fixed-capacity byte buffer whose cells are carved out of memory-mapped
//! pages and recycled through a per-thread pool, with bounds-checked cursor
//! access and endianness-aware scalar encoding.
pub mod allocator;
pub mod byte_buffer;
pub mod codec;
pub mod error;
pub mod framed;
pub mod tagged;
pub mod time;

pub use allocator::{Buffer, BufferPool, Node, BUFFER_SIZE, PAGE_CREATION_COUNT};
pub use byte_buffer::MByteBuffer;
pub use codec::{ByteOrder, MByteBufferRead, MByteBufferWrite};
pub use error::{MByteBufferError, Result};
pub use time::{new_duration, Duration};
