use sqs::errors::AppError;

#[test]
fn usage_error_maps_to_exit_code_2() {
    let error = AppError::usage("bad args".to_string());
    assert_eq!(error.exit_code(), 2);
}

#[test]
fn operational_errors_map_to_exit_code_1() {
    assert_eq!(AppError::message("oops".to_string()).exit_code(), 1);
    assert_eq!(AppError::not_found("abc".to_string()).exit_code(), 1);
    assert_eq!(AppError::ambiguous_task_ref("ship".to_string()).exit_code(), 1);
    assert_eq!(AppError::NoTty.exit_code(), 1);
    assert_eq!(
        AppError::invalid_task_file("a.md".to_string(), "bad yaml".to_string()).exit_code(),
        1
    );
}

#[test]
fn error_messages_read_as_displayed() {
    assert_eq!(AppError::not_found("abc".to_string()).describe(), "task not found: abc");
    assert_eq!(
        AppError::ambiguous_task_ref("ship".to_string()).describe(),
        "task reference is ambiguous: ship"
    );
    assert_eq!(AppError::NoTty.describe(), "interactive input requires a TTY");
    assert_eq!(
        AppError::invalid_task_file("a.md".to_string(), "bad yaml".to_string()).describe(),
        "invalid task file a.md: bad yaml"
    );
    assert_eq!(
        AppError::path_traversal_attempt("../x".to_string()).describe(),
        "path traversal attempt: ../x"
    );
    assert_eq!(AppError::usage("bad args".to_string()).describe(), "bad args");
}

#[test]
fn outside_errors_are_described_with_their_kind() {
    let io = AppError::Io(std::io::Error::new(std::io::ErrorKind::Other, "disk gone"));
    assert_eq!(io.describe(), "io error: disk gone");
    assert_eq!(io.exit_code(), 1);
}
