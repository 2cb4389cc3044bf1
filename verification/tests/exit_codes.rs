use cdbgen_rs::error::{exit_code_for_error, AppError, ConfigError, FetchError, OutputError};
use cdbgen_rs::{final_exit_code, EXIT_CONFIG, EXIT_FETCH, EXIT_GENERIC, EXIT_OUTPUT, EXIT_SUCCESS};

#[test]
fn final_exit_code_prefers_empty_guard_over_fetch_skip() {
    assert_eq!(final_exit_code(false, false), EXIT_SUCCESS);
    assert_eq!(final_exit_code(true, false), EXIT_FETCH);
    assert_eq!(final_exit_code(false, true), EXIT_GENERIC);
    assert_eq!(final_exit_code(true, true), EXIT_GENERIC);
}

#[test]
fn maps_exit_codes() {
    assert_eq!(
        exit_code_for_error(&AppError::Generic("x".into())),
        EXIT_GENERIC
    );
    assert_eq!(
        exit_code_for_error(&AppError::Config(ConfigError::EmptySources)),
        EXIT_CONFIG
    );
    assert_eq!(
        exit_code_for_error(&AppError::Fetch(FetchError::Unavailable {
            source_id: "a".into(),
            message: "x".into()
        })),
        EXIT_FETCH
    );
}

#[test]
fn output_and_task_errors_map_to_their_codes() {
    assert_eq!(
        exit_code_for_error(&AppError::Output(OutputError::Rename {
            path: "/tmp/x".into(),
            message: "denied".into()
        })),
        EXIT_OUTPUT
    );
    assert_eq!(
        exit_code_for_error(&AppError::ParseTask("join".into())),
        EXIT_GENERIC
    );
}
