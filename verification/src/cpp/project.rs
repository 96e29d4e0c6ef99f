//! A C++ project as a set of modules that depend on one another.
use std::collections::{HashMap, HashSet};
use vstd::prelude::*;

verus! {

/// Represents a C++ project consisting of modules with mutual dependencies.
#[derive(Debug)]
pub struct CppProject {
    pub name: String,
    pub description: String,
    /// The root directory of the project.
    pub root_dir: String,
    /// The modules of the project, by name.
    pub modules: HashMap<String, Module>,
}

/// Represents a C++ module with its properties.
#[derive(Debug)]
pub struct Module {
    /// The name of the module.
    pub name: String,
    /// A description of the module what it does.
    pub description: String,
    /// The root path of the module relative to the project root.
    pub relative_path: String,
    /// The source directory of the module relative to the module root.
    pub source_dir: String,
    /// The type of this module (library or binary).
    pub module_type: ModuleType,
    /// A set of names of other modules this module depends on.
    pub dependencies: HashSet<String>,
}

/// Represents the type of a C++ module.
#[derive(Debug, Clone, Copy, PartialEq, Eq, Hash)]
pub enum ModuleType {
    Library,
    Binary,
}

} // verus!
