//! The options of a front end, as plain values, and what is logged of them.
use crate::cpp::builder::Options as BuilderOptions;
use crate::llm::LLMOptions;
use crate::text::texts;
use vstd::prelude::*;

verus! {

/// How much is logged.
#[derive(Clone, Copy, Debug, PartialEq, Eq, Structural)]
pub enum LogLevel {
    Trace,
    Debug,
    Info,
    Warn,
    Error,
}

/// What a front end was asked to do.
#[derive(Debug, Clone)]
pub struct Options {
    /// The log level
    pub log_level: LogLevel,
    /// The output directory for the generated files
    pub output_directory: String,
    pub command: Commands,
}

/// The commands of a front end.
#[derive(Debug, Clone)]
pub enum Commands {
    /// Parses the C++ project files and dumps out the JSON representation
    Project(ProjectArguments),
}

/// The arguments of the command that reads a project.
#[derive(Debug, Clone)]
pub struct ProjectArguments {
    /// The LLM model to be used.
    pub model: String,
    /// The LLM API endpoint to use
    pub api_endpoint: String,
    /// The root directory for the project
    pub root_directory: String,
}

/// `text` as `{:?}` writes a string: in double quotes, with escapes.
pub uninterp spec fn debug_text(text: Seq<char>) -> Seq<char>;

/// `format!` with `{:?}` on a string: the result is the quoted and escaped
/// form of the argument, which depends on nothing else.
#[verifier::external_body]
fn debug_string(text: &str) -> (r: String)
    ensures
        r@ == debug_text(text@),
{
    format!("{:?}", text)
}

/// The lines that are logged of options whose two directories were already
/// put in quotes.
pub open spec fn log_lines_with(
    options: Options,
    output_directory: Seq<char>,
    root_directory: Seq<char>,
) -> Seq<Seq<char>> {
    match options.command {
        Commands::Project(arguments) => seq![
            "log_level: "@ + options.log_level.name(),
            "output_directory: "@ + output_directory,
            "command: Project"@,
            "  model: "@ + arguments.model@,
            "  api_endpoint: "@ + arguments.api_endpoint@,
            "  root_directory: "@ + root_directory,
        ],
    }
}

/// The lines that are logged of options.
pub open spec fn log_lines(options: Options) -> Seq<Seq<char>> {
    match options.command {
        Commands::Project(arguments) => log_lines_with(
            options,
            debug_text(options.output_directory@),
            debug_text(arguments.root_directory@),
        ),
    }
}

impl LogLevel {
    /// The name of the level.
    pub open spec fn name(self) -> Seq<char> {
        match self {
            LogLevel::Trace => "Trace"@,
            LogLevel::Debug => "Debug"@,
            LogLevel::Info => "Info"@,
            LogLevel::Warn => "Warn"@,
            LogLevel::Error => "Error"@,
        }
    }

    /// The name of the level.
    pub fn as_str(&self) -> (r: &'static str)
        ensures
            r@ == self.name(),
    {
        match self {
            LogLevel::Trace => "Trace",
            LogLevel::Debug => "Debug",
            LogLevel::Info => "Info",
            LogLevel::Warn => "Warn",
            LogLevel::Error => "Error",
        }
    }
}

/// `label` followed by `text`.
fn labelled(label: &str, text: &str) -> (r: String)
    ensures
        r@ == label@ + text@,
{
    let mut r = label.to_owned();
    r.append(text);
    r
}

impl Options {
    /// The lines that are logged of the options, given the two directories
    /// in quotes.
    pub fn log_lines_with(&self, output_directory: &str, root_directory: &str) -> (lines: Vec<
        String,
    >)
        ensures
            texts(lines@) == log_lines_with(*self, output_directory@, root_directory@),
    {
        let mut lines: Vec<String> = Vec::new();
        lines.push(labelled("log_level: ", self.log_level.as_str()));
        lines.push(labelled("output_directory: ", output_directory));
        match &self.command {
            Commands::Project(args) => {
                lines.push(labelled("command: Project", ""));
                lines.push(labelled("  model: ", args.model.as_str()));
                lines.push(labelled("  api_endpoint: ", args.api_endpoint.as_str()));
                lines.push(labelled("  root_directory: ", root_directory));
            },
        }
        proof {
            reveal_strlit("");
            assert("command: Project"@ + ""@ =~= "command: Project"@);
            assert(texts(lines@) =~= log_lines_with(*self, output_directory@, root_directory@));
        }
        lines
    }

    /// Dumps the options to the log: returns the lines that are to be
    /// logged, in their order.
    pub fn dump_to_log(&self) -> (lines: Vec<String>)
        ensures
            texts(lines@) == log_lines(*self),
    {
        match &self.command {
            Commands::Project(args) => {
                let output_directory = debug_string(self.output_directory.as_str());
                let root_directory = debug_string(args.root_directory.as_str());
                self.log_lines_with(output_directory.as_str(), root_directory.as_str())
            },
        }
    }

    /// The options of the builder for these options, with the key of the
    /// language-model API and the time that a request may take.
    pub fn builder_options(&self, api_key: String, api_timeout: core::time::Duration) -> (r:
        BuilderOptions)
        ensures
            r.output_directory@ == self.output_directory@,
            r.llm.api_key == api_key,
            r.llm.api_timeout == api_timeout,
            match self.command {
                Commands::Project(arguments) => {
                    &&& r.root_directory@ == arguments.root_directory@
                    &&& r.llm.model@ == arguments.model@
                    &&& r.llm.endpoint@ == arguments.api_endpoint@
                },
            },
    {
        match &self.command {
            Commands::Project(project_args) => BuilderOptions {
                root_directory: project_args.root_directory.clone(),
                output_directory: self.output_directory.clone(),
                llm: LLMOptions {
                    model: project_args.model.clone(),
                    endpoint: project_args.api_endpoint.clone(),
                    api_key,
                    api_timeout,
                },
            },
        }
    }
}

} // verus!
