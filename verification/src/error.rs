//! Errors of the library and the exit codes they map to.

use vstd::prelude::*;

verus! {

pub const EXIT_SUCCESS: i32 = 0;
pub const EXIT_GENERIC: i32 = 1;
pub const EXIT_CONFIG: i32 = 2;
pub const EXIT_FETCH: i32 = 3;
pub const EXIT_OUTPUT: i32 = 4;

/// Why a configuration is refused.
#[derive(Debug)]
pub enum ConfigError {
    Read { path: String, message: String },
    Toml { path: String, message: String },
    EmptySources,
    EmptyOutputs,
    InvalidSourceId(String),
    InvalidUrl { source_id: String, url: String },
    UnsupportedScheme { source_id: String, scheme: String },
    EmptyOutputGroup { group: String },
    UnknownOutputSource { group: String, source_id: String },
    EmptyOutputPath { group: String },
}

/// `ConfigError` with its strings as character sequences.
pub enum ConfigErrorView {
    Read { path: Seq<char>, message: Seq<char> },
    Toml { path: Seq<char>, message: Seq<char> },
    EmptySources,
    EmptyOutputs,
    InvalidSourceId(Seq<char>),
    InvalidUrl { source_id: Seq<char>, url: Seq<char> },
    UnsupportedScheme { source_id: Seq<char>, scheme: Seq<char> },
    EmptyOutputGroup { group: Seq<char> },
    UnknownOutputSource { group: Seq<char>, source_id: Seq<char> },
    EmptyOutputPath { group: Seq<char> },
}

impl View for ConfigError {
    type V = ConfigErrorView;

    open spec fn view(&self) -> ConfigErrorView {
        match self {
            ConfigError::Read { path, message } => ConfigErrorView::Read {
                path: path@,
                message: message@,
            },
            ConfigError::Toml { path, message } => ConfigErrorView::Toml {
                path: path@,
                message: message@,
            },
            ConfigError::EmptySources => ConfigErrorView::EmptySources,
            ConfigError::EmptyOutputs => ConfigErrorView::EmptyOutputs,
            ConfigError::InvalidSourceId(id) => ConfigErrorView::InvalidSourceId(id@),
            ConfigError::InvalidUrl { source_id, url } => ConfigErrorView::InvalidUrl {
                source_id: source_id@,
                url: url@,
            },
            ConfigError::UnsupportedScheme { source_id, scheme } =>
                ConfigErrorView::UnsupportedScheme { source_id: source_id@, scheme: scheme@ },
            ConfigError::EmptyOutputGroup { group } => ConfigErrorView::EmptyOutputGroup {
                group: group@,
            },
            ConfigError::UnknownOutputSource { group, source_id } =>
                ConfigErrorView::UnknownOutputSource { group: group@, source_id: source_id@ },
            ConfigError::EmptyOutputPath { group } => ConfigErrorView::EmptyOutputPath {
                group: group@,
            },
        }
    }
}

/// Why a source could not be had.
#[derive(Debug, Clone)]
pub enum FetchError {
    Unavailable { source_id: String, message: String },
    Cache { source_id: String, message: String },
}

/// Why an output could not be written; `message` is the I/O error's text.
#[derive(Debug)]
pub enum OutputError {
    CreateParent { path: String, message: String },
    CreateTemp { path: String, message: String },
    WriteRecord { path: String, message: String },
    Finalize { path: String, message: String },
    Fsync { path: String, message: String },
    Rename { path: String, message: String },
}

/// Any failure of a run.
#[derive(Debug)]
pub enum AppError {
    Config(ConfigError),
    Fetch(FetchError),
    Output(OutputError),
    ParseTask(String),
    Generic(String),
}

/// The exit code of a failed run: 2 for configuration errors, 3 for fetch
/// errors, 4 for output errors, 1 otherwise.
pub open spec fn exit_code_spec(error: AppError) -> i32 {
    match error {
        AppError::Config(_) => EXIT_CONFIG,
        AppError::Fetch(_) => EXIT_FETCH,
        AppError::Output(_) => EXIT_OUTPUT,
        AppError::ParseTask(_) | AppError::Generic(_) => EXIT_GENERIC,
    }
}

pub fn exit_code_for_error(error: &AppError) -> (code: i32)
    ensures
        code == exit_code_spec(*error),
{
    match error {
        AppError::Config(_) => EXIT_CONFIG,
        AppError::Fetch(_) => EXIT_FETCH,
        AppError::Output(_) => EXIT_OUTPUT,
        AppError::ParseTask(_) | AppError::Generic(_) => EXIT_GENERIC,
    }
}

/// The exit code of a completed run: an empty output (whose file was kept)
/// outranks skipped outputs.
pub open spec fn final_exit_spec(had_fetch_skips: bool, had_empty_outputs: bool) -> i32 {
    if had_empty_outputs {
        EXIT_GENERIC
    } else if had_fetch_skips {
        EXIT_FETCH
    } else {
        EXIT_SUCCESS
    }
}

pub fn final_exit_code(had_fetch_skips: bool, had_empty_outputs: bool) -> (code: i32)
    ensures
        code == final_exit_spec(had_fetch_skips, had_empty_outputs),
{
    if had_empty_outputs {
        EXIT_GENERIC
    } else if had_fetch_skips {
        EXIT_FETCH
    } else {
        EXIT_SUCCESS
    }
}

} // verus!
