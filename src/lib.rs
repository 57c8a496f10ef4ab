//! A client for `.gitignore` templates: a language list and per-language
//! ignore documents, held in a cache that can be written out and read back.

pub mod cache;
pub mod client;
pub mod gitignore;
pub mod remote;
pub mod text;

pub use cache::{Cache, CacheFiles};
pub use client::{Bliss, Lookup};
pub use gitignore::Gitignore;
