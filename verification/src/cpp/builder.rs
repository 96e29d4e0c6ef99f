//! What is known of a C++ project before it is analysed: its CMake cache and
//! its CMake files.
pub mod cmake_cache;
pub mod cmake_files;
pub mod codec_laws;
pub mod patch_laws;
pub mod variables;

use crate::llm::LLMOptions;
use vstd::prelude::*;

verus! {

/// The options for parsing the CPP project structure.
pub struct Options {
    /// The root directory for the project.
    pub root_directory: String,
    /// The output directory for the generated files.
    pub output_directory: String,
    /// The options for the LLM to be used to collect all relevant information.
    pub llm: LLMOptions,
}

} // verus!
