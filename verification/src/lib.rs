//! Building, walking and decoding libubox `blob` / `blobmsg` buffers.

pub mod blob;
pub mod blobmsg;
pub mod endian;
pub mod json;

pub use blob::attr::{BlobAttr, BlobIter};
pub use blob::{BlobBuf, BlobError};
pub use blobmsg::{BlobmsgAttr, BlobmsgBuf, BlobmsgIter, BlobmsgParser, BlobmsgType};
pub mod uloop;

pub use uloop::{Uloop, UloopError};
