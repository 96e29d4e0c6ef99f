//! The C++ side: the build description of a project and what is read from it.
pub mod builder;
pub mod project;

pub use builder::cmake_cache::{
    patch_cmake_cache_data, CMakeCache, CMakeVariable, CMakeVariableType,
};
pub use builder::cmake_files::{find_cmake_files_in_project, CMakeFiles};
pub use builder::variables::Variables;
pub use builder::Options;
pub use project::{CppProject, Module, ModuleType};
