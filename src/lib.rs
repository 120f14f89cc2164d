//! Content-addressed object store: the object model and its wire format,
//! content-defined chunking, stat caches, and the decisions that move file
//! trees into and out of the store.

pub mod cache;
pub mod chunker;
pub mod codec;
pub mod dag;
pub mod error;
pub mod hash;
pub mod ignore;
pub mod parse;
pub mod partial;
pub mod plan;
pub mod store;
