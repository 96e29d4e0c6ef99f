//! Reading and patching of CMake cache files, and the data model of a C++
//! project that is described by CMake files.
//!
//! The heart of the crate is [`cpp::builder::cmake_cache`]: a line of a cache
//! is read into a variable and a variable is written as a line, a whole cache
//! is read into a table of variables, and a cache is patched with a table
//! while every line that declares no variable stays as it is. What holds
//! between these operations is proved in [`cpp::builder::codec_laws`] and
//! [`cpp::builder::patch_laws`].
//!
//! Nothing here reads or writes files: a cache is handed in as bytes, a
//! project folder as the list of what stands in it.
pub mod cpp;
pub mod error;
pub mod lines;
pub mod llm;
pub mod options;
pub mod order;
pub mod secret;
pub mod text;

pub use error::Error;
