use cpp2rust::cpp::builder::cmake_cache::{CMakeVariable, CMakeVariableType};
use cpp2rust::error::Error;

#[test]
fn test_parse_cmake_variable_type() {
    assert_eq!(
        CMakeVariableType::from_str("BOOL").unwrap(),
        CMakeVariableType::Bool
    );
    assert_eq!(
        CMakeVariableType::from_str("FILEPATH").unwrap(),
        CMakeVariableType::FilePath
    );
    assert_eq!(
        CMakeVariableType::from_str("PATH").unwrap(),
        CMakeVariableType::Path
    );
    assert_eq!(
        CMakeVariableType::from_str("STRING").unwrap(),
        CMakeVariableType::String
    );
    assert_eq!(
        CMakeVariableType::from_str("INTERNAL").unwrap(),
        CMakeVariableType::Internal
    );
    assert!(CMakeVariableType::from_str("UNKNOWN").is_err());
}

#[test]
fn test_parse_cmake_variable() {
    assert_eq!(
        CMakeVariable::from_str("CMAKE_BUILD_TYPE:STRING=Debug").unwrap(),
        CMakeVariable::new(
            "CMAKE_BUILD_TYPE".to_string(),
            CMakeVariableType::String,
            "Debug".to_string(),
            false,
        )
    );
    assert_eq!(
        CMakeVariable::from_str("CMAKE_INSTALL_PREFIX:PATH=/usr/local").unwrap(),
        CMakeVariable::new(
            "CMAKE_INSTALL_PREFIX".to_string(),
            CMakeVariableType::Path,
            "/usr/local".to_string(),
            false,
        )
    );
    assert_eq!(
        CMakeVariable::from_str("CMAKE_VERBOSE_MAKEFILE:BOOL=ON").unwrap(),
        CMakeVariable::new(
            "CMAKE_VERBOSE_MAKEFILE".to_string(),
            CMakeVariableType::Bool,
            "ON".to_string(),
            false,
        )
    );
    assert_eq!(
        CMakeVariable::from_str("CMAKE_EXPORT_COMPILE_COMMANDS:BOOL=ON").unwrap(),
        CMakeVariable::new(
            "CMAKE_EXPORT_COMPILE_COMMANDS".to_string(),
            CMakeVariableType::Bool,
            "ON".to_string(),
            false,
        )
    );
    assert_eq!(
        CMakeVariable::from_str("CMAKE_ADDR2LINE-ADVANCED:INTERNAL=1").unwrap(),
        CMakeVariable::new(
            "CMAKE_ADDR2LINE".to_string(),
            CMakeVariableType::Internal,
            "1".to_string(),
            true,
        )
    );
    assert!(CMakeVariable::from_str("# INTERNAL cache entries").is_err());
}

#[test]
fn test_display_cmake_variable() {
    let cmake_strings = [
        "CMAKE_BUILD_TYPE:STRING=Debug",
        "CMAKE_INSTALL_PREFIX:PATH=/usr/local",
        "CMAKE_VERBOSE_MAKEFILE:BOOL=ON",
        "CMAKE_EXPORT_COMPILE_COMMANDS:BOOL=ON",
        "CMAKE_ADDR2LINE-ADVANCED:INTERNAL=1",
    ];

    for s in &cmake_strings {
        let var = CMakeVariable::from_str(s).unwrap();
        assert_eq!(var.to_string(), *s);
    }
}

#[test]
fn variable_type_spellings() {
    assert_eq!(CMakeVariableType::Bool.to_string(), "BOOL");
    assert_eq!(CMakeVariableType::FilePath.to_string(), "FILEPATH");
    assert_eq!(CMakeVariableType::Path.to_string(), "PATH");
    assert_eq!(CMakeVariableType::String.to_string(), "STRING");
    assert_eq!(CMakeVariableType::Internal.to_string(), "INTERNAL");
    assert_eq!(CMakeVariableType::Internal.as_str(), "INTERNAL");
}

#[test]
fn variable_type_is_exact_and_case_sensitive() {
    assert_eq!(
        CMakeVariableType::from_str("bool"),
        Err(Error::CMakeVariableTypeUnknown("bool".to_string()))
    );
    assert_eq!(
        CMakeVariableType::from_str(" BOOL"),
        Err(Error::CMakeVariableTypeUnknown(" BOOL".to_string()))
    );
    assert_eq!(
        CMakeVariableType::from_str(""),
        Err(Error::CMakeVariableTypeUnknown(String::new()))
    );
    assert_eq!(
        CMakeVariableType::from_str("STATIC"),
        Err(Error::CMakeVariableTypeUnknown("STATIC".to_string()))
    );
}

#[test]
fn accessors_give_the_parts() {
    let var = CMakeVariable::from_str("CMAKE_ADDR2LINE-ADVANCED:INTERNAL=1").unwrap();
    assert_eq!(var.name(), "CMAKE_ADDR2LINE");
    assert_eq!(var.var_type(), CMakeVariableType::Internal);
    assert_eq!(var.value(), "1");
    assert!(var.advanced());
    let copy = var.clone();
    assert_eq!(copy, var);
}

#[test]
fn parse_rejects_empty_lines() {
    for line in ["", "   ", "\t", "\r", " \u{a0}\u{3000} "] {
        assert_eq!(
            CMakeVariable::from_str(line),
            Err(Error::CMakeVariableParseErrorEmptyLine)
        );
    }
}

#[test]
fn parse_rejects_comments() {
    for line in [
        "# comment",
        "// comment",
        "  # indented",
        "  // indented",
        "#",
        "//",
        "#A:BOOL=ON",
        "//A:BOOL=ON",
    ] {
        assert_eq!(
            CMakeVariable::from_str(line),
            Err(Error::CMakeVariableParseErrorCommentLine)
        );
    }
    // one stroke alone starts no comment
    assert_eq!(CMakeVariable::from_str("/A:BOOL=ON").unwrap().name(), "/A");
}

#[test]
fn parse_rejects_a_line_without_assignment() {
    assert_eq!(
        CMakeVariable::from_str("CMAKE_BUILD_TYPE:STRING"),
        Err(Error::CMakeVariableParseErrorAssignmentLine)
    );
    assert_eq!(
        CMakeVariable::from_str("just some words"),
        Err(Error::CMakeVariableParseErrorAssignmentLine)
    );
}

#[test]
fn parse_rejects_an_empty_left_hand_side() {
    assert_eq!(
        CMakeVariable::from_str("=value"),
        Err(Error::CMakeVariableParseErrorMissingName)
    );
    assert_eq!(
        CMakeVariable::from_str("   = value"),
        Err(Error::CMakeVariableParseErrorMissingName)
    );
}

#[test]
fn parse_rejects_a_left_hand_side_without_colon() {
    assert_eq!(
        CMakeVariable::from_str("NAME=value"),
        Err(Error::CMakeVariableParseErrorMissingColon)
    );
    assert_eq!(
        CMakeVariable::from_str("NAME=a:b"),
        Err(Error::CMakeVariableParseErrorMissingColon)
    );
}

#[test]
fn parse_rejects_an_empty_key_or_type() {
    assert_eq!(
        CMakeVariable::from_str(":BOOL=ON"),
        Err(Error::CMakeVariableParseErrorMissingName)
    );
    assert_eq!(
        CMakeVariable::from_str("NAME:=ON"),
        Err(Error::CMakeVariableParseErrorMissingName)
    );
    assert_eq!(
        CMakeVariable::from_str("NAME :  =ON"),
        Err(Error::CMakeVariableParseErrorMissingName)
    );
}

#[test]
fn parse_rejects_an_unknown_type() {
    assert_eq!(
        CMakeVariable::from_str("X:FOO=1"),
        Err(Error::CMakeVariableTypeUnknown("FOO".to_string()))
    );
    assert_eq!(
        CMakeVariable::from_str("X: static =1"),
        Err(Error::CMakeVariableTypeUnknown("static".to_string()))
    );
    assert_eq!(
        CMakeVariable::from_str("X:BOOL:MORE=1"),
        Err(Error::CMakeVariableTypeUnknown("BOOL:MORE".to_string()))
    );
}

#[test]
fn parse_splits_at_the_first_equals_and_the_first_colon() {
    let var = CMakeVariable::from_str("FLAGS:STRING=-DA=1 -DB:x=2").unwrap();
    assert_eq!(var.name(), "FLAGS");
    assert_eq!(var.var_type(), CMakeVariableType::String);
    assert_eq!(var.value(), "-DA=1 -DB:x=2");
    assert!(!var.advanced());
}

#[test]
fn parse_trims_the_line_and_its_parts() {
    let var = CMakeVariable::from_str("  \tNAME : PATH =  /usr/local/my dir \r").unwrap();
    assert_eq!(
        var,
        CMakeVariable::new(
            "NAME".to_string(),
            CMakeVariableType::Path,
            "/usr/local/my dir".to_string(),
            false,
        )
    );
    assert_eq!(var.to_string(), "NAME:PATH=/usr/local/my dir");
}

#[test]
fn parse_trims_unicode_white_space() {
    let var = CMakeVariable::from_str("\u{2003}NAME\u{a0}:\u{3000}BOOL\u{85}=\u{1680}ON\u{2028}").unwrap();
    assert_eq!(
        var,
        CMakeVariable::new(
            "NAME".to_string(),
            CMakeVariableType::Bool,
            "ON".to_string(),
            false,
        )
    );
    // a zero-width space is no white space and stays
    let var = CMakeVariable::from_str("NAME:BOOL=\u{200b}ON").unwrap();
    assert_eq!(var.value(), "\u{200b}ON");
}

#[test]
fn parse_agrees_with_the_standard_trim_on_every_character() {
    for code in 0u32..=0x10FFFF {
        if let Some(c) = char::from_u32(code) {
            if c == '=' || c == ':' || c == '#' {
                continue;
            }
            let line = format!("{}N:BOOL=V{}", c, c);
            let var = CMakeVariable::from_str(&line).unwrap();
            let expected_name = format!("{}N", c).trim().to_string();
            let expected_value = format!("V{}", c).trim().to_string();
            assert_eq!(var.name(), expected_name, "code point {:x}", code);
            assert_eq!(var.value(), expected_value, "code point {:x}", code);
        }
    }
}

#[test]
fn parse_accepts_an_empty_value() {
    let var = CMakeVariable::from_str("CMAKE_CXX_FLAGS:STRING=").unwrap();
    assert_eq!(var.value(), "");
    assert_eq!(var.to_string(), "CMAKE_CXX_FLAGS:STRING=");
}

#[test]
fn parse_rejects_a_key_that_is_the_advanced_suffix_alone() {
    assert_eq!(
        CMakeVariable::from_str("-ADVANCED:STRING=x"),
        Err(Error::CMakeVariableParseErrorMissingName)
    );
    assert_eq!(
        CMakeVariable::from_str("  -ADVANCED : BOOL = 1"),
        Err(Error::CMakeVariableParseErrorMissingName)
    );
    // the missing name is told before the unknown type
    assert_eq!(
        CMakeVariable::from_str("-ADVANCED:FOO=1"),
        Err(Error::CMakeVariableParseErrorMissingName)
    );
    assert_eq!(
        CMakeVariable::from_str("-ADVANCE:BOOL=1").unwrap().name(),
        "-ADVANCE"
    );
}

#[test]
fn a_declared_variable_has_a_name() {
    for line in [
        "A:BOOL=ON",
        "A-ADVANCED:BOOL=ON",
        "-ADVANCED:BOOL=ON",
        "-ADVANCED-ADVANCED:BOOL=ON",
        " :BOOL=ON",
        "x y:PATH=",
    ] {
        if let Ok(var) = CMakeVariable::from_str(line) {
            assert!(!var.name().is_empty(), "{:?}", line);
        }
    }
}

#[test]
fn advanced_suffix_is_stripped_once() {
    let var = CMakeVariable::from_str("A-ADVANCED-ADVANCED:BOOL=1").unwrap();
    assert_eq!(var.name(), "A-ADVANCED");
    assert!(var.advanced());
    assert_eq!(var.to_string(), "A-ADVANCED-ADVANCED:BOOL=1");

    let var = CMakeVariable::from_str("-ADVANCED-ADVANCED:BOOL=1").unwrap();
    assert_eq!(var.name(), "-ADVANCED");
    assert!(var.advanced());

    let var = CMakeVariable::from_str("A-advanced:BOOL=1").unwrap();
    assert_eq!(var.name(), "A-advanced");
    assert!(!var.advanced());
}

#[test]
fn format_writes_the_canonical_line() {
    let var = CMakeVariable::new(
        "NEW_VARIABLE".to_string(),
        CMakeVariableType::String,
        "HelloWorld".to_string(),
        false,
    );
    assert_eq!(var.to_string(), "NEW_VARIABLE:STRING=HelloWorld");
    let var = CMakeVariable::new(
        "CMAKE_AR".to_string(),
        CMakeVariableType::FilePath,
        "/usr/bin/ar".to_string(),
        true,
    );
    assert_eq!(var.to_string(), "CMAKE_AR-ADVANCED:FILEPATH=/usr/bin/ar");
}

#[test]
fn canonical_lines_are_read_and_written_back_unchanged() {
    let kinds = ["BOOL", "FILEPATH", "PATH", "STRING", "INTERNAL"];
    let keys = ["A", "CMAKE_C_FLAGS", "my key", "/", "x-ADVANCED", "-ADVANCED-ADVANCED", "ünï"];
    let values = ["", "ON", "a b  c", "=", "a:b=c#d", "//x", "/usr/bin/c++"];
    for kind in kinds {
        for key in keys {
            for value in values {
                let line = format!("{}:{}={}", key, kind, value);
                let var = CMakeVariable::from_str(&line).unwrap();
                assert_eq!(var.to_string(), line);
                assert_eq!(var.value(), value);
                assert_eq!(var.var_type().as_str(), kind);
            }
        }
    }
}

#[test]
fn a_parsed_variable_is_read_back_from_its_own_line() {
    for line in [
        "  A : BOOL = ON  ",
        "B-ADVANCED:INTERNAL= 1",
        "\tC D:STRING=x = y",
        "E:PATH=",
    ] {
        let var = CMakeVariable::from_str(line).unwrap();
        let again = CMakeVariable::from_str(&var.to_string()).unwrap();
        assert_eq!(again, var);
        assert_eq!(again.to_string(), var.to_string());
    }
}
