//! An in-memory key/value server core: the wire codec, the command resolver,
//! a sharded ordered store with lazy and sampled expiration, and the request
//! pipeline that couples them.

pub mod dataframe;
pub mod keys;
pub mod shard;
pub mod store;
pub mod value;
pub mod parse;
pub mod operation;
pub mod server;
pub mod laws;
pub mod codec_laws;
