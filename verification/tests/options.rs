use cpp2rust::options::{Commands, LogLevel, Options, ProjectArguments};
use std::time::Duration;

fn options() -> Options {
    Options {
        log_level: LogLevel::Info,
        output_directory: "out dir".to_string(),
        command: Commands::Project(ProjectArguments {
            model: "some/model".to_string(),
            api_endpoint: "https://openrouter.ai/api/v1/".to_string(),
            root_directory: "projects/\"temp\"".to_string(),
        }),
    }
}

#[test]
fn dump_to_log_gives_the_lines_of_the_options() {
    assert_eq!(
        options().dump_to_log(),
        vec![
            "log_level: Info",
            "output_directory: \"out dir\"",
            "command: Project",
            "  model: some/model",
            "  api_endpoint: https://openrouter.ai/api/v1/",
            "  root_directory: \"projects/\\\"temp\\\"\"",
        ]
    );
}

#[test]
fn dump_to_log_writes_as_the_formatter_does() {
    let options = options();
    let Commands::Project(ref args) = options.command;
    let expected = vec![
        format!("log_level: {:?}", options.log_level),
        format!("output_directory: {:?}", options.output_directory),
        "command: Project".to_string(),
        format!("  model: {}", args.model),
        format!("  api_endpoint: {}", args.api_endpoint),
        format!("  root_directory: {:?}", args.root_directory),
    ];
    assert_eq!(options.dump_to_log(), expected);
}

#[test]
fn log_lines_take_the_directories_as_given() {
    assert_eq!(
        options().log_lines_with("<out>", "<root>"),
        vec![
            "log_level: Info",
            "output_directory: <out>",
            "command: Project",
            "  model: some/model",
            "  api_endpoint: https://openrouter.ai/api/v1/",
            "  root_directory: <root>",
        ]
    );
}

#[test]
fn log_levels_are_named_as_they_are_written() {
    for level in [
        LogLevel::Trace,
        LogLevel::Debug,
        LogLevel::Info,
        LogLevel::Warn,
        LogLevel::Error,
    ] {
        assert_eq!(level.as_str(), format!("{:?}", level));
    }
    assert_eq!(LogLevel::Warn.as_str(), "Warn");
}

#[test]
fn builder_options_take_over_the_options() {
    let built = options().builder_options("key".to_string(), Duration::from_secs(30));
    assert_eq!(built.root_directory, "projects/\"temp\"");
    assert_eq!(built.output_directory, "out dir");
    assert_eq!(built.llm.model, "some/model");
    assert_eq!(built.llm.endpoint, "https://openrouter.ai/api/v1/");
    assert_eq!(built.llm.api_key, "key");
    assert_eq!(built.llm.api_timeout, Duration::from_secs(30));
}
