use cpp2rust::cpp::builder::cmake_cache::DerivedField;
use cpp2rust::cpp::{patch_cmake_cache_data, CMakeCache, CMakeVariable, CMakeVariableType, Variables};
use cpp2rust::error::Error;

/// A cache file as CMake writes it for a small project.
const CMAKE_CACHE: &str = "\
# This is the CMakeCache file.
# For build in directory: /home/jdoe/projects/temp/build
# It was generated by CMake: /usr/bin/cmake
# You can edit this file to change values found and used by cmake.
# If you do not want to change any of the values, simply exit the editor.
# If you do want to change a value, simply edit, save, and exit the editor.
# The syntax for the file is as follows:
# KEY:TYPE=VALUE
# KEY is the name of a variable in the cache.
# TYPE is a hint to GUIs for the type of VALUE, DO NOT EDIT TYPE!.
# VALUE is the current value for the KEY.

########################
# EXTERNAL cache entries
########################

//Path to a program.
CMAKE_ADDR2LINE:FILEPATH=/usr/bin/addr2line

//Path to a program.
CMAKE_AR:FILEPATH=/usr/bin/ar

//Choose the type of build, options are: None Debug Release RelWithDebInfo
// MinSizeRel ...
CMAKE_BUILD_TYPE:STRING=Debug

//Enable/Disable color output during build.
CMAKE_COLOR_MAKEFILE:BOOL=ON

//CXX compiler
CMAKE_CXX_COMPILER:FILEPATH=/usr/bin/c++

//Flags used by the CXX compiler during all build types.
CMAKE_CXX_FLAGS:STRING=

//Flags used by the CXX compiler during DEBUG builds.
CMAKE_CXX_FLAGS_DEBUG:STRING=-g

//Flags used by the CXX compiler during RELEASE builds.
CMAKE_CXX_FLAGS_RELEASE:STRING=-O3 -DNDEBUG

//Enable/Disable output of compile commands during generation.
CMAKE_EXPORT_COMPILE_COMMANDS:BOOL=

//Install path prefix, prepended onto install directories.
CMAKE_INSTALL_PREFIX:PATH=/usr/local

//Path to a program.
CMAKE_MAKE_PROGRAM:FILEPATH=/usr/bin/gmake

//Value Computed by CMake
CMAKE_PROJECT_DESCRIPTION:STATIC=

//Value Computed by CMake
CMAKE_PROJECT_NAME:STATIC=temp

//If set, runtime paths are not added when using shared libraries.
CMAKE_SKIP_RPATH:BOOL=NO

//If this value is on, makefiles will be generated without the
// .SILENT directive, and all commands will be echoed to the console
// during the make.  This is useful for debugging only. With Visual
// Studio IDE projects all commands are done without /nologo.
CMAKE_VERBOSE_MAKEFILE:BOOL=FALSE

//Value Computed by CMake
temp_BINARY_DIR:STATIC=/home/jdoe/projects/temp/build

//Value Computed by CMake
temp_SOURCE_DIR:STATIC=/home/jdoe/projects/temp


########################
# INTERNAL cache entries
########################

//ADVANCED property for variable: CMAKE_ADDR2LINE
CMAKE_ADDR2LINE-ADVANCED:INTERNAL=1
//ADVANCED property for variable: CMAKE_AR
CMAKE_AR-ADVANCED:INTERNAL=1
//This is the directory where this CMakeCache.txt was created
CMAKE_CACHEFILE_DIR:INTERNAL=/home/jdoe/projects/temp/build
//Major version of cmake used to create the current loaded cache
CMAKE_CACHE_MAJOR_VERSION:INTERNAL=3
//Minor version of cmake used to create the current loaded cache
CMAKE_CACHE_MINOR_VERSION:INTERNAL=28
//ADVANCED property for variable: CMAKE_COLOR_MAKEFILE
CMAKE_COLOR_MAKEFILE-ADVANCED:INTERNAL=1
//Path to CMake executable.
CMAKE_COMMAND:INTERNAL=/usr/bin/cmake
//ADVANCED property for variable: CMAKE_CXX_COMPILER
CMAKE_CXX_COMPILER-ADVANCED:INTERNAL=1
//Name of external makefile project generator.
CMAKE_EXTRA_GENERATOR:INTERNAL=
//Name of generator.
CMAKE_GENERATOR:INTERNAL=Unix Makefiles
//Generator instance identifier.
CMAKE_GENERATOR_INSTANCE:INTERNAL=
//Source directory with the top level CMakeLists.txt file for this
// project
CMAKE_HOME_DIRECTORY:INTERNAL=/home/jdoe/projects/temp
//number of local generators
CMAKE_NUMBER_OF_MAKEFILES:INTERNAL=1
//Path to CMake installation.
CMAKE_ROOT:INTERNAL=/usr/share/cmake-3.28
//uname command
CMAKE_UNAME:INTERNAL=/usr/bin/uname
//ADVANCED property for variable: CMAKE_VERBOSE_MAKEFILE
CMAKE_VERBOSE_MAKEFILE-ADVANCED:INTERNAL=1

";

fn variable(line: &str) -> CMakeVariable {
    CMakeVariable::from_str(line).unwrap()
}

fn patch_of(lines: &[&str]) -> Variables {
    let mut variables = Variables::default();
    for line in lines {
        let var = variable(line);
        variables.insert(var.name().to_string(), var);
    }
    variables
}

fn patched(text: &str, variables: &Variables) -> String {
    patch_cmake_cache_data(text.as_bytes(), variables).unwrap()
}

#[test]
fn test_parse_cmake_cache() {
    let cmake_cache_content = CMAKE_CACHE.as_bytes();
    let cache = CMakeCache::parse(&cmake_cache_content[..]).unwrap();

    assert!(cache.source_dir().is_some());
    assert!(cache.build_dir().is_some());
    assert!(cache.generator().is_some());

    assert_eq!(cache.source_dir(), Some("/home/jdoe/projects/temp"));

    assert_eq!(cache.build_dir(), Some("/home/jdoe/projects/temp/build"));

    assert_eq!(cache.generator(), Some("Unix Makefiles"));
    assert!(cache.variables().contains_key("CMAKE_BUILD_TYPE"));
}

#[test]
fn test_patch_cmake_cache_patch_one_entry() {
    let cmake_cache_content = CMAKE_CACHE;
    let cache0 = CMakeCache::parse(cmake_cache_content.as_bytes()).unwrap();

    let mut variables = Variables::default();
    variables.insert(
        "CMAKE_COLOR_MAKEFILE".to_string(),
        CMakeVariable::from_str("CMAKE_COLOR_MAKEFILE:BOOL=OFF").unwrap(),
    );

    let result = patch_cmake_cache_data(cmake_cache_content.as_bytes(), &variables).unwrap();

    let patched_cache = CMakeCache::parse(result.as_bytes()).unwrap();

    assert_eq!(patched_cache.source_dir(), cache0.source_dir());
    assert_eq!(patched_cache.build_dir(), cache0.build_dir());
    assert_eq!(patched_cache.generator(), cache0.generator());
    assert_eq!(patched_cache.variables().len(), cache0.variables().len());

    for (orig_var, patched_var) in cache0
        .variables()
        .values()
        .iter()
        .zip(patched_cache.variables().values().iter())
    {
        assert_eq!(orig_var.name(), patched_var.name());
        if orig_var != patched_var {
            assert_eq!(variables.get(orig_var.name()), Some(patched_var));
        }
    }

    assert_eq!(
        patched_cache.variables().get("CMAKE_COLOR_MAKEFILE"),
        variables.get("CMAKE_COLOR_MAKEFILE")
    );
    assert!(variables.get("CMAKE_COLOR_MAKEFILE").is_some());
}

#[test]
fn test_patch_cmake_cache_patch_one_entry_and_new() {
    let cmake_cache_content = CMAKE_CACHE;
    let cache0 = CMakeCache::parse(cmake_cache_content.as_bytes()).unwrap();

    let mut variables = Variables::default();
    variables.insert(
        "CMAKE_COLOR_MAKEFILE".to_string(),
        CMakeVariable::from_str("CMAKE_COLOR_MAKEFILE:BOOL=OFF").unwrap(),
    );
    variables.insert(
        "NEW_VARIABLE".to_string(),
        CMakeVariable::from_str("NEW_VARIABLE:STRING=HelloWorld").unwrap(),
    );

    let result = patch_cmake_cache_data(cmake_cache_content.as_bytes(), &variables).unwrap();
    let patched_cache = CMakeCache::parse(result.as_bytes()).unwrap();

    assert_eq!(patched_cache.source_dir(), cache0.source_dir());
    assert_eq!(patched_cache.build_dir(), cache0.build_dir());
    assert_eq!(patched_cache.generator(), cache0.generator());
    assert_eq!(
        patched_cache.variables().len(),
        cache0.variables().len() + 1
    );

    for (orig_var, patched_var) in cache0
        .variables()
        .values()
        .iter()
        .zip(patched_cache.variables().values().iter())
    {
        assert_eq!(orig_var.name(), patched_var.name());
        if orig_var != patched_var {
            assert_eq!(variables.get(orig_var.name()), Some(patched_var));
        }
    }

    assert_eq!(
        patched_cache.variables().get("CMAKE_COLOR_MAKEFILE"),
        variables.get("CMAKE_COLOR_MAKEFILE")
    );
    assert_eq!(
        patched_cache.variables().get("NEW_VARIABLE"),
        variables.get("NEW_VARIABLE")
    );
    assert!(variables.get("CMAKE_COLOR_MAKEFILE").is_some());
    assert!(variables.get("NEW_VARIABLE").is_some());
}

#[test]
fn test_patch_cmake_cache_no_change() {
    let cmake_cache_content = CMAKE_CACHE;
    let variables = Variables::default();

    let result = patch_cmake_cache_data(cmake_cache_content.as_bytes(), &variables).unwrap();

    assert_eq!(result, cmake_cache_content);
}

#[test]
fn load_sets_the_three_fields_and_leaves_internal_variables_out() {
    let text = "\
CMAKE_HOME_DIRECTORY:INTERNAL=/home/jdoe/projects/temp
CMAKE_CACHEFILE_DIR:INTERNAL=/home/jdoe/projects/temp/build
CMAKE_GENERATOR:INTERNAL=Unix Makefiles
CMAKE_BUILD_TYPE:STRING=Debug
";
    let cache = CMakeCache::parse(text.as_bytes()).unwrap();
    assert_eq!(cache.source_dir(), Some("/home/jdoe/projects/temp"));
    assert_eq!(cache.build_dir(), Some("/home/jdoe/projects/temp/build"));
    assert_eq!(cache.generator(), Some("Unix Makefiles"));
    assert_eq!(cache.variables().len(), 1);
    assert_eq!(
        cache.variables().get("CMAKE_BUILD_TYPE"),
        Some(&variable("CMAKE_BUILD_TYPE:STRING=Debug"))
    );
    assert!(!cache.variables().contains_key("CMAKE_HOME_DIRECTORY"));
    assert!(!cache.variables().contains_key("CMAKE_CACHEFILE_DIR"));
    assert!(!cache.variables().contains_key("CMAKE_GENERATOR"));
}

#[test]
fn load_counts_the_variables_of_the_cache_file() {
    let cache = CMakeCache::parse(CMAKE_CACHE.as_bytes()).unwrap();
    assert_eq!(cache.variables().len(), 13);
    assert_eq!(
        cache.variables().keys(),
        vec![
            "CMAKE_ADDR2LINE",
            "CMAKE_AR",
            "CMAKE_BUILD_TYPE",
            "CMAKE_COLOR_MAKEFILE",
            "CMAKE_CXX_COMPILER",
            "CMAKE_CXX_FLAGS",
            "CMAKE_CXX_FLAGS_DEBUG",
            "CMAKE_CXX_FLAGS_RELEASE",
            "CMAKE_EXPORT_COMPILE_COMMANDS",
            "CMAKE_INSTALL_PREFIX",
            "CMAKE_MAKE_PROGRAM",
            "CMAKE_SKIP_RPATH",
            "CMAKE_VERBOSE_MAKEFILE",
        ]
    );
}

#[test]
fn load_takes_the_fields_from_variables_of_any_type() {
    let text = "CMAKE_GENERATOR:STRING=Ninja\nCMAKE_HOME_DIRECTORY:PATH=/src\n";
    let cache = CMakeCache::parse(text.as_bytes()).unwrap();
    assert_eq!(cache.generator(), Some("Ninja"));
    assert_eq!(cache.source_dir(), Some("/src"));
    assert_eq!(cache.build_dir(), None);
    assert_eq!(cache.variables().len(), 2);
    assert!(cache.variables().contains_key("CMAKE_GENERATOR"));
}

#[test]
fn load_of_nothing_is_the_empty_cache() {
    let cache = CMakeCache::parse(b"").unwrap();
    assert_eq!(cache, CMakeCache::default());
    assert_eq!(cache.source_dir(), None);
    assert_eq!(cache.build_dir(), None);
    assert_eq!(cache.generator(), None);
    assert!(cache.variables().is_empty());
    let cache = CMakeCache::parse(b"# nothing\n\nno assignment here\nX:FOO=1\n").unwrap();
    assert_eq!(cache, CMakeCache::default());
}

#[test]
fn load_lets_a_later_line_win() {
    let text = "A:BOOL=ON\nB:STRING=x\nA:STRING=later\nCMAKE_GENERATOR:INTERNAL=one\nCMAKE_GENERATOR:INTERNAL=two\n";
    let cache = CMakeCache::parse(text.as_bytes()).unwrap();
    assert_eq!(cache.variables().len(), 2);
    assert_eq!(cache.variables().get("A"), Some(&variable("A:STRING=later")));
    assert_eq!(cache.generator(), Some("two"));
}

#[test]
fn load_keeps_a_variable_that_a_later_internal_line_names() {
    let cache = CMakeCache::parse(b"A:BOOL=ON\nA:INTERNAL=1\n").unwrap();
    assert_eq!(cache.variables().get("A"), Some(&variable("A:BOOL=ON")));
}

#[test]
fn load_stores_an_advanced_variable_under_its_bare_name() {
    let cache = CMakeCache::parse(b"X-ADVANCED:BOOL=ON\n").unwrap();
    let var = cache.variables().get("X").unwrap();
    assert!(var.advanced());
    assert_eq!(var.value(), "ON");
    assert!(!cache.variables().contains_key("X-ADVANCED"));
}

#[test]
fn a_line_without_a_name_is_passed_over_and_kept() {
    let text = "A:BOOL=ON\n  -ADVANCED : BOOL = 1\n";
    let cache = CMakeCache::parse(text.as_bytes()).unwrap();
    assert_eq!(cache.variables().keys(), vec!["A"]);
    assert!(!cache.variables().contains_key(""));
    let mut variables = Variables::new();
    variables.insert(
        "".to_string(),
        CMakeVariable::new("".to_string(), CMakeVariableType::Bool, "0".to_string(), true),
    );
    // the line declares nothing, so it stays, and the entry counts as new
    assert_eq!(
        patched(text, &variables),
        "A:BOOL=ON\n  -ADVANCED : BOOL = 1\n\n-ADVANCED:BOOL=0\n"
    );
}

#[test]
fn load_passes_over_a_line_that_is_no_utf8() {
    let data = b"A:BOOL=ON\nB:STRING=\xff\xfe\nC:PATH=/x\n";
    let cache = CMakeCache::parse(data).unwrap();
    assert_eq!(cache.variables().keys(), vec!["A", "C"]);
}

#[test]
fn load_reads_lines_that_end_with_carriage_return_and_line_feed() {
    let cache = CMakeCache::parse(b"A:BOOL=ON\r\nB:STRING=x y\r\nCMAKE_GENERATOR:INTERNAL=Ninja\r\n").unwrap();
    assert_eq!(cache.variables().get("A"), Some(&variable("A:BOOL=ON")));
    assert_eq!(cache.variables().get("B"), Some(&variable("B:STRING=x y")));
    assert_eq!(cache.generator(), Some("Ninja"));
}

#[test]
fn load_reads_a_last_line_without_line_feed() {
    let cache = CMakeCache::parse(b"A:BOOL=ON\nB:STRING=x").unwrap();
    assert_eq!(cache.variables().len(), 2);
    assert_eq!(cache.variables().get("B"), Some(&variable("B:STRING=x")));
}

#[test]
fn patch_fails_on_a_line_that_is_no_utf8() {
    let data = b"A:BOOL=ON\nB:STRING=\xff\xfe\nC:PATH=/x\n";
    let result = patch_cmake_cache_data(data, &Variables::default());
    assert_eq!(
        result,
        Err(Error::IO("stream did not contain valid UTF-8".to_string()))
    );
    let result = patch_cmake_cache_data(data, &patch_of(&["A:BOOL=OFF"]));
    assert!(matches!(result, Err(Error::IO(_))));
}

#[test]
fn patch_of_nothing_with_nothing_is_nothing() {
    assert_eq!(patched("", &Variables::default()), "");
    assert_eq!(
        patched("", &patch_of(&["NEW_VARIABLE:STRING=HelloWorld"])),
        "\nNEW_VARIABLE:STRING=HelloWorld\n"
    );
}

#[test]
fn patch_replaces_the_line_and_leaves_the_others() {
    let variables = patch_of(&["CMAKE_BUILD_TYPE:STRING=Release"]);
    let result = patched(CMAKE_CACHE, &variables);
    let before: Vec<&str> = CMAKE_CACHE.lines().collect();
    let after: Vec<&str> = result.lines().collect();
    assert_eq!(before.len(), after.len());
    let mut changed = 0;
    for (old, new) in before.iter().zip(after.iter()) {
        if *old == "CMAKE_BUILD_TYPE:STRING=Debug" {
            assert_eq!(*new, "CMAKE_BUILD_TYPE:STRING=Release");
            changed += 1;
        } else {
            assert_eq!(old, new);
        }
    }
    assert_eq!(changed, 1);
    assert_eq!(
        result,
        CMAKE_CACHE.replace("CMAKE_BUILD_TYPE:STRING=Debug", "CMAKE_BUILD_TYPE:STRING=Release")
    );
    let cache0 = CMakeCache::parse(CMAKE_CACHE.as_bytes()).unwrap();
    let cache1 = CMakeCache::parse(result.as_bytes()).unwrap();
    assert_eq!(cache1.variables().len(), cache0.variables().len());
    assert_eq!(cache1.variables().get("CMAKE_BUILD_TYPE").unwrap().value(), "Release");
}

#[test]
fn patch_replaces_the_line_of_the_advanced_mark_too() {
    let variables = patch_of(&["CMAKE_COLOR_MAKEFILE:BOOL=OFF"]);
    let result = patched(CMAKE_CACHE, &variables);
    let expected = CMAKE_CACHE
        .replace("CMAKE_COLOR_MAKEFILE:BOOL=ON", "CMAKE_COLOR_MAKEFILE:BOOL=OFF")
        .replace(
            "CMAKE_COLOR_MAKEFILE-ADVANCED:INTERNAL=1",
            "CMAKE_COLOR_MAKEFILE:BOOL=OFF",
        );
    assert_eq!(result, expected);
}

#[test]
fn patch_appends_a_new_variable_once_after_an_empty_line() {
    let variables = patch_of(&["NEW_VARIABLE:STRING=HelloWorld"]);
    let result = patched(CMAKE_CACHE, &variables);
    assert_eq!(
        result,
        format!("{}\nNEW_VARIABLE:STRING=HelloWorld\n", CMAKE_CACHE)
    );
    assert_eq!(result.matches("NEW_VARIABLE").count(), 1);
    let cache0 = CMakeCache::parse(CMAKE_CACHE.as_bytes()).unwrap();
    let cache1 = CMakeCache::parse(result.as_bytes()).unwrap();
    assert_eq!(cache1.variables().len(), cache0.variables().len() + 1);
}

#[test]
fn patch_applied_twice_is_patch_applied_once() {
    let variables = patch_of(&[
        "CMAKE_COLOR_MAKEFILE:BOOL=OFF",
        "NEW_VARIABLE:STRING=HelloWorld",
        "CMAKE_GENERATOR:INTERNAL=Ninja",
        "ANOTHER-ADVANCED:PATH=/opt/x y",
    ]);
    let once = patched(CMAKE_CACHE, &variables);
    let twice = patched(&once, &variables);
    assert_eq!(twice, once);
    assert_ne!(once, CMAKE_CACHE);

    let untidy = "  A : BOOL = ON \r\n# c\r\n\r\nlast:STRING=x";
    let variables = patch_of(&["A:BOOL=OFF", "Z:PATH=/z"]);
    let once = patched(untidy, &variables);
    assert_eq!(once, "A:BOOL=OFF\n# c\n\nlast:STRING=x\n\nZ:PATH=/z\n");
    assert_eq!(patched(&once, &variables), once);
}

#[test]
fn patch_with_a_padded_value_can_be_applied_again() {
    let mut variables = Variables::new();
    variables.insert(
        "NEW".to_string(),
        CMakeVariable::new(
            "NEW".to_string(),
            CMakeVariableType::String,
            " padded \r".to_string(),
            false,
        ),
    );
    variables.insert(
        "A".to_string(),
        CMakeVariable::new("A".to_string(), CMakeVariableType::Bool, "\tOFF".to_string(), true),
    );
    let once = patched("A:BOOL=ON\n# c\n", &variables);
    assert_eq!(once, "A-ADVANCED:BOOL=\tOFF\n# c\n\nNEW:STRING= padded \r\n");
    assert_eq!(patched(&once, &variables), once);
    // read again, the values come without the padding
    let cache = CMakeCache::parse(once.as_bytes()).unwrap();
    assert_eq!(cache.variables().get("NEW").unwrap().value(), "padded");
    assert_eq!(cache.variables().get("A").unwrap().value(), "OFF");
}

#[test]
fn patch_with_a_variable_under_another_name_grows_each_time() {
    let mut variables = Variables::new();
    variables.insert("KEY".to_string(), variable("OTHER:STRING=x"));
    let once = patched("# c\n", &variables);
    assert_eq!(once, "# c\n\nOTHER:STRING=x\n");
    let twice = patched(&once, &variables);
    assert_eq!(twice, "# c\n\nOTHER:STRING=x\n\nOTHER:STRING=x\n");
}

#[test]
fn patch_takes_one_carriage_return_off_a_line_each_time() {
    let variables = Variables::default();
    let once = patched("# c\r\r\nA:BOOL=ON\r\r\n", &variables);
    assert_eq!(once, "# c\r\nA:BOOL=ON\n");
    let twice = patched(&once, &variables);
    assert_eq!(twice, "# c\nA:BOOL=ON\n");
    assert_eq!(patched(&twice, &variables), twice);
    let cache = CMakeCache::parse(once.as_bytes()).unwrap();
    assert_eq!(cache.variables().keys(), vec!["A"]);
}

#[test]
fn derived_fields_belong_to_the_three_well_known_names() {
    assert_eq!(
        DerivedField::of_variable("CMAKE_HOME_DIRECTORY"),
        Some(DerivedField::SourceDir)
    );
    assert_eq!(
        DerivedField::of_variable("CMAKE_CACHEFILE_DIR"),
        Some(DerivedField::BuildDir)
    );
    assert_eq!(
        DerivedField::of_variable("CMAKE_GENERATOR"),
        Some(DerivedField::Generator)
    );
    assert_eq!(DerivedField::of_variable("CMAKE_GENERATOR_INSTANCE"), None);
    assert_eq!(DerivedField::of_variable("cmake_generator"), None);
    assert_eq!(DerivedField::of_variable(""), None);
    for field in [
        DerivedField::SourceDir,
        DerivedField::BuildDir,
        DerivedField::Generator,
    ] {
        assert_eq!(DerivedField::of_variable(field.name()), Some(field));
    }
}

#[test]
fn patch_appends_new_variables_in_the_order_of_their_names() {
    let variables = patch_of(&["b:BOOL=1", "C:BOOL=2", "a:BOOL=3", "B:BOOL=4", "A:BOOL=5"]);
    let result = patched("# head\n", &variables);
    assert_eq!(
        result,
        "# head\n\nA:BOOL=5\n\nB:BOOL=4\n\nC:BOOL=2\n\na:BOOL=3\n\nb:BOOL=1\n"
    );
}

#[test]
fn patch_rewrites_every_line_that_declares_the_name() {
    let variables = patch_of(&["A:STRING=new"]);
    let result = patched("A:BOOL=ON\n# between\nA-ADVANCED:INTERNAL=1\nB:BOOL=ON\nA:PATH=/x\n", &variables);
    assert_eq!(
        result,
        "A:STRING=new\n# between\nA:STRING=new\nB:BOOL=ON\nA:STRING=new\n"
    );
}

#[test]
fn patch_replaces_type_and_advanced_mark_too() {
    let variables = patch_of(&["A-ADVANCED:PATH=/x"]);
    assert_eq!(variables.keys(), vec!["A"]);
    assert_eq!(patched("A:BOOL=ON\n", &variables), "A-ADVANCED:PATH=/x\n");
}

#[test]
fn patch_looks_a_variable_up_by_the_key_of_the_table() {
    let mut variables = Variables::default();
    variables.insert("A".to_string(), variable("OTHER:STRING=x"));
    assert_eq!(patched("A:BOOL=ON\nOTHER:BOOL=ON\n", &variables), "OTHER:STRING=x\nOTHER:BOOL=ON\n");
    assert_eq!(patched("B:BOOL=ON\n", &variables), "B:BOOL=ON\n\nOTHER:STRING=x\n");
}

#[test]
fn patch_writes_untouched_variables_anew() {
    let result = patched("  A : BOOL = ON  \n\t# comment \nnot a variable \n", &Variables::default());
    assert_eq!(result, "A:BOOL=ON\n\t# comment \nnot a variable \n");
}

#[test]
fn patch_ends_every_line_with_a_line_feed() {
    assert_eq!(patched("A:BOOL=ON", &Variables::default()), "A:BOOL=ON\n");
    assert_eq!(patched("# a\r\n# b", &Variables::default()), "# a\n# b\n");
    assert_eq!(patched("\n\n", &Variables::default()), "\n\n");
}

#[test]
fn reading_a_patched_cache_gives_the_patched_table() {
    let variables = patch_of(&[
        "CMAKE_BUILD_TYPE:STRING=Release",
        "CMAKE_HOME_DIRECTORY:INTERNAL=/elsewhere",
        "CMAKE_AR:INTERNAL=hidden",
        "BRAND_NEW:BOOL=ON",
        "NEW_INTERNAL:INTERNAL=1",
    ]);
    let cache0 = CMakeCache::parse(CMAKE_CACHE.as_bytes()).unwrap();
    let result = patched(CMAKE_CACHE, &variables);
    let cache1 = CMakeCache::parse(result.as_bytes()).unwrap();

    assert_eq!(cache1.source_dir(), Some("/elsewhere"));
    assert_eq!(cache1.build_dir(), cache0.build_dir());
    assert_eq!(cache1.generator(), cache0.generator());
    let mut expected: Vec<String> = cache0.variables().keys();
    expected.retain(|k| k != "CMAKE_AR");
    expected.insert(0, "BRAND_NEW".to_string());
    assert_eq!(cache1.variables().keys(), expected);
    for key in expected {
        let new = cache1.variables().get(&key).unwrap();
        match variables.get(&key) {
            Some(var) => assert_eq!(new, var),
            None => assert_eq!(Some(new), cache0.variables().get(&key)),
        }
    }
}

#[test]
fn variables_hold_one_variable_under_each_name_in_the_order_of_the_names() {
    let mut variables = Variables::new();
    assert!(variables.is_empty());
    assert_eq!(variables.len(), 0);
    assert_eq!(variables.get("A"), None);
    assert!(!variables.contains_key("A"));

    assert_eq!(variables.insert("b".to_string(), variable("b:BOOL=1")), None);
    assert_eq!(variables.insert("A".to_string(), variable("A:BOOL=2")), None);
    assert_eq!(variables.insert("é".to_string(), variable("é:BOOL=3")), None);
    assert_eq!(variables.insert("B".to_string(), variable("B:BOOL=4")), None);
    assert_eq!(
        variables.insert(
            "".to_string(),
            CMakeVariable::new("".to_string(), CMakeVariableType::Bool, "5".to_string(), true)
        ),
        None
    );
    assert_eq!(variables.len(), 5);
    assert!(!variables.is_empty());
    assert_eq!(variables.keys(), vec!["", "A", "B", "b", "é"]);

    assert_eq!(
        variables.insert("A".to_string(), variable("A:STRING=again")),
        Some(variable("A:BOOL=2"))
    );
    assert_eq!(variables.len(), 5);
    assert_eq!(variables.get("A"), Some(&variable("A:STRING=again")));
    assert_eq!(variables.position("A"), Some(1));
    assert_eq!(variables.position("C"), None);
    assert_eq!(variables.key_at(3), "b");
    assert_eq!(variables.value_at(3), &variable("b:BOOL=1"));
    let values = variables.values();
    assert_eq!(values.len(), 5);
    assert_eq!(values[4], variable("é:BOOL=3"));
    assert!(variables.contains_key("é"));
    assert!(!variables.contains_key("e"));

    let copy = variables.clone();
    assert_eq!(copy, variables);
    assert_eq!(Variables::default(), Variables::new());
}

#[test]
fn variables_keep_the_order_of_many_names() {
    let names = ["m", "c", "x", "a", "q", "b", "z", "d", "y", "e", "w", "f", "n"];
    let mut variables = Variables::new();
    for (i, name) in names.iter().enumerate() {
        let var = CMakeVariable::new(name.to_string(), CMakeVariableType::String, i.to_string(), false);
        variables.insert(name.to_string(), var);
    }
    let mut sorted: Vec<String> = names.iter().map(|n| n.to_string()).collect();
    sorted.sort();
    assert_eq!(variables.keys(), sorted);
    for (i, name) in names.iter().enumerate() {
        assert_eq!(variables.get(name).unwrap().value(), i.to_string());
    }
}
