use cpp2rust::cpp::{patch_cmake_cache_data, CMakeCache, CMakeVariable, CMakeVariableType, Variables};
use cpp2rust::error::Error;
use std::collections::{BTreeMap, BTreeSet};
use std::io::BufRead;

/// The rules of a cache line, written with the string functions of the
/// standard library.
fn parse_with_std(s: &str) -> Result<(String, CMakeVariableType, String, bool), Error> {
    let line = s.trim();
    if line.is_empty() {
        return Err(Error::CMakeVariableParseErrorEmptyLine);
    }
    if line.starts_with('#') || line.starts_with("//") {
        return Err(Error::CMakeVariableParseErrorCommentLine);
    }
    let (lhs, rhs) = line
        .split_once('=')
        .map(|(l, r)| (l.trim(), r.trim()))
        .ok_or(Error::CMakeVariableParseErrorAssignmentLine)?;
    if lhs.is_empty() {
        return Err(Error::CMakeVariableParseErrorMissingName);
    }
    let (key, var_type_str) = lhs
        .split_once(':')
        .map(|(k, v)| (k.trim(), v.trim()))
        .ok_or(Error::CMakeVariableParseErrorMissingColon)?;
    if key.is_empty() || var_type_str.is_empty() {
        return Err(Error::CMakeVariableParseErrorMissingName);
    }
    let advanced = key.ends_with("-ADVANCED");
    let name: String = if advanced {
        key[..key.len() - 9].to_string()
    } else {
        key.to_string()
    };
    if name.is_empty() {
        return Err(Error::CMakeVariableParseErrorMissingName);
    }
    let var_type = match var_type_str {
        "BOOL" => CMakeVariableType::Bool,
        "FILEPATH" => CMakeVariableType::FilePath,
        "PATH" => CMakeVariableType::Path,
        "STRING" => CMakeVariableType::String,
        "INTERNAL" => CMakeVariableType::Internal,
        _ => return Err(Error::CMakeVariableTypeUnknown(var_type_str.to_string())),
    };
    Ok((name, var_type, rhs.to_string(), advanced))
}

fn format_with_std(var: &(String, CMakeVariableType, String, bool)) -> String {
    let kind = match var.1 {
        CMakeVariableType::Bool => "BOOL",
        CMakeVariableType::FilePath => "FILEPATH",
        CMakeVariableType::Path => "PATH",
        CMakeVariableType::String => "STRING",
        CMakeVariableType::Internal => "INTERNAL",
    };
    if var.3 {
        format!("{}-ADVANCED:{}={}", var.0, kind, var.2)
    } else {
        format!("{}:{}={}", var.0, kind, var.2)
    }
}

type Table = BTreeMap<String, (String, CMakeVariableType, String, bool)>;

/// The rules of reading a cache, written with the reader and the map of the
/// standard library.
fn load_with_std(data: &[u8]) -> (Option<String>, Option<String>, Option<String>, Table) {
    let mut fields = (None, None, None);
    let mut table = Table::new();
    for line in data.lines() {
        let line = line.unwrap_or_default();
        if let Ok(var) = parse_with_std(&line) {
            if var.0 == "CMAKE_HOME_DIRECTORY" {
                fields.0 = Some(var.2.clone());
            } else if var.0 == "CMAKE_CACHEFILE_DIR" {
                fields.1 = Some(var.2.clone());
            } else if var.0 == "CMAKE_GENERATOR" {
                fields.2 = Some(var.2.clone());
            }
            if var.1 == CMakeVariableType::Internal {
                continue;
            }
            table.insert(var.0.clone(), var);
        }
    }
    (fields.0, fields.1, fields.2, table)
}

/// The rules of patching a cache, written with the reader, the map and the
/// set of the standard library; new names are added in their order.
fn patch_with_std(data: &[u8], patch: &Table) -> Result<String, std::io::Error> {
    let mut new_entries: BTreeSet<String> = patch.keys().cloned().collect();
    let mut result = String::new();
    for line in data.lines() {
        let line = line?;
        if let Ok(var) = parse_with_std(&line) {
            new_entries.remove(&var.0);
            if let Some(patch_var) = patch.get(&var.0) {
                result.push_str(&format_with_std(patch_var));
                result.push('\n');
            } else {
                result.push_str(&format_with_std(&var));
                result.push('\n');
            }
        } else {
            result.push_str(&line);
            result.push('\n');
        }
    }
    for name in new_entries {
        if let Some(var) = patch.get(&name) {
            result.push('\n');
            result.push_str(&format_with_std(var));
            result.push('\n');
        }
    }
    Ok(result)
}

const PIECES: [&str; 18] = [
    "", " ", "\t", "\r", "\u{a0}", "#", "/", "=", ":", "A", "b c", "-ADVANCED", "BOOL", "PATH",
    "INTERNAL", "FOO", "é", "CMAKE_GENERATOR",
];

/// Every text made of up to `n` of the pieces.
fn texts_of(n: usize, joint: &str) -> Vec<String> {
    let mut all = vec![String::new()];
    let mut last = vec![String::new()];
    for _ in 0..n {
        let mut next = Vec::new();
        for text in &last {
            for piece in PIECES.iter().skip(1) {
                if text.is_empty() {
                    next.push(piece.to_string());
                } else {
                    next.push(format!("{}{}{}", text, joint, piece));
                }
            }
        }
        all.extend(next.iter().cloned());
        last = next;
    }
    all
}

fn as_tuple(var: &CMakeVariable) -> (String, CMakeVariableType, String, bool) {
    (
        var.name().to_string(),
        var.var_type(),
        var.value().to_string(),
        var.advanced(),
    )
}

#[test]
fn lines_are_read_as_the_standard_string_functions_read_them() {
    for line in texts_of(4, "") {
        let expected = parse_with_std(&line);
        let found = CMakeVariable::from_str(&line);
        match (&found, &expected) {
            (Ok(var), Ok(tuple)) => {
                assert_eq!(&as_tuple(var), tuple, "{:?}", line);
                assert_eq!(var.to_string(), format_with_std(tuple), "{:?}", line);
            }
            (Err(e), Err(f)) => assert_eq!(e, f, "{:?}", line),
            _ => panic!("{:?}: {:?} and {:?}", line, found, expected),
        }
    }
}

fn lines_for_caches() -> Vec<&'static str> {
    vec![
        "# comment",
        "",
        "A:BOOL=ON",
        "A:INTERNAL=1",
        " A : STRING = x ",
        "B-ADVANCED:PATH=/b",
        " -ADVANCED:BOOL=ON",
        "CMAKE_GENERATOR:INTERNAL=Ninja",
        "CMAKE_HOME_DIRECTORY:PATH=/src",
        "no variable\r",
    ]
}

fn caches() -> Vec<Vec<u8>> {
    let lines = lines_for_caches();
    let ends: [&[u8]; 3] = [b"\n", b"\r\n", b""];
    let mut all: Vec<Vec<u8>> = vec![Vec::new(), b"\n".to_vec(), b"\xff\nA:BOOL=ON\n".to_vec()];
    for a in &lines {
        for b in &lines {
            for c in &lines {
                for end in ends {
                    let mut data = Vec::new();
                    data.extend_from_slice(a.as_bytes());
                    data.extend_from_slice(b"\n");
                    data.extend_from_slice(b.as_bytes());
                    data.extend_from_slice(end);
                    if !end.is_empty() {
                        data.extend_from_slice(c.as_bytes());
                        data.extend_from_slice(end);
                    }
                    all.push(data);
                }
            }
        }
    }
    all
}

#[test]
fn caches_are_read_as_the_standard_reader_reads_them() {
    for data in caches() {
        let cache = CMakeCache::parse(&data).unwrap();
        let expected = load_with_std(&data);
        assert_eq!(cache.source_dir(), expected.0.as_deref());
        assert_eq!(cache.build_dir(), expected.1.as_deref());
        assert_eq!(cache.generator(), expected.2.as_deref());
        let keys: Vec<String> = expected.3.keys().cloned().collect();
        assert_eq!(cache.variables().keys(), keys);
        for (var, tuple) in cache.variables().values().iter().zip(expected.3.values()) {
            assert_eq!(&as_tuple(var), tuple);
        }
    }
}

#[test]
fn caches_are_patched_as_with_the_standard_reader_and_map() {
    let patches: Vec<Vec<&str>> = vec![
        vec![],
        vec!["A:BOOL=OFF"],
        vec!["NEW:STRING=n"],
        vec!["B:INTERNAL=hidden", "A-ADVANCED:FILEPATH=/a", "zz:BOOL=1", "ZZ:BOOL=2"],
        vec!["CMAKE_GENERATOR:STRING=Unix Makefiles", "CMAKE_HOME_DIRECTORY:INTERNAL=/x"],
    ];
    for lines in &patches {
        let mut variables = Variables::new();
        let mut table = Table::new();
        for line in lines {
            let var = CMakeVariable::from_str(line).unwrap();
            table.insert(var.name().to_string(), as_tuple(&var));
            variables.insert(var.name().to_string(), var);
        }
        for data in caches() {
            let found = patch_cmake_cache_data(&data, &variables);
            match patch_with_std(&data, &table) {
                Ok(text) => assert_eq!(found, Ok(text)),
                Err(e) => assert_eq!(found, Err(Error::IO(e.to_string()))),
            }
        }
    }
}
