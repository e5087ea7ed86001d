use runstack_lib::errors::AppError;
use runstack_lib::validation::validate_command;
use runstack_lib::validation::validate_command_args;
use runstack_lib::validation::validate_directory_path;
use runstack_lib::validation::validate_file_path;
use runstack_lib::validation::validate_pid;
use runstack_lib::validation::PathMeta;

fn missing() -> PathMeta {
    PathMeta { exists: false, is_dir: false }
}

fn dir() -> PathMeta {
    PathMeta { exists: true, is_dir: true }
}

#[test]
fn test_validate_pid_rejects_zero() {
    assert!(validate_pid(0).is_err());
    let err = validate_pid(0).unwrap_err();
    assert!(matches!(err, AppError::CommandError(_)));
    assert!(err.message().contains("0 is reserved"));
}

#[test]
fn test_validate_pid_accepts_valid_pids() {
    assert_eq!(validate_pid(1).unwrap(), 1);
    assert_eq!(validate_pid(12345).unwrap(), 12345);
    assert_eq!(validate_pid(32768).unwrap(), 32768);
    assert_eq!(validate_pid(1000000).unwrap(), 1000000);
}

#[test]
fn test_validate_pid_rejects_too_large() {
    assert!(validate_pid(10_000_001).is_err());
    let err = validate_pid(10_000_001).unwrap_err();
    assert!(matches!(err, AppError::CommandError(_)));
    assert!(err.message().contains("out of range"));
    assert!(err.message().contains("10000001"));
}

#[test]
fn test_validate_directory_path_rejects_empty() {
    assert!(validate_directory_path("", &missing()).is_err());
    let err = validate_directory_path("", &missing()).unwrap_err();
    assert!(matches!(err, AppError::NotFound(_)));
}

#[test]
fn test_validate_directory_path_rejects_null_bytes() {
    assert!(validate_directory_path("/path\0/to/dir", &missing()).is_err());
    let err = validate_directory_path("/path\0/to/dir", &missing()).unwrap_err();
    assert!(matches!(err, AppError::CommandError(_)));
    assert!(err.message().contains("null bytes"));
}

#[test]
fn test_validate_directory_path_rejects_path_traversal() {
    assert!(validate_directory_path("../parent", &missing()).is_err());
    assert!(validate_directory_path("../../etc", &missing()).is_err());
    assert!(validate_directory_path("/path/../other", &missing()).is_err());

    let err = validate_directory_path("../parent", &missing()).unwrap_err();
    assert!(matches!(err, AppError::CommandError(_)));
    assert!(err.message().contains("path traversal"));
}

#[test]
fn test_validate_directory_path_rejects_too_long() {
    let long_path = "/".to_string() + &"a".repeat(4097);
    assert!(validate_directory_path(&long_path, &missing()).is_err());
    let err = validate_directory_path(&long_path, &missing()).unwrap_err();
    assert!(matches!(err, AppError::CommandError(_)));
    assert!(err.message().contains("too long"));
}

#[test]
fn test_validate_directory_path_rejects_nonexistent() {
    assert!(validate_directory_path("/nonexistent/path/12345", &missing()).is_err());
    let err = validate_directory_path("/nonexistent/path/12345", &missing()).unwrap_err();
    assert!(matches!(err, AppError::NotFound(_)));
}

#[test]
fn test_validate_file_path_rejects_empty() {
    assert!(validate_file_path("", &missing()).is_err());
    let err = validate_file_path("", &missing()).unwrap_err();
    assert!(matches!(err, AppError::NotFound(_)));
}

#[test]
fn test_validate_file_path_rejects_null_bytes() {
    assert!(validate_file_path("/path\0/to/file", &missing()).is_err());
    let err = validate_file_path("/path\0/to/file", &missing()).unwrap_err();
    assert!(matches!(err, AppError::CommandError(_)));
    assert!(err.message().contains("null bytes"));
}

#[test]
fn test_validate_file_path_rejects_path_traversal() {
    assert!(validate_file_path("../parent", &missing()).is_err());
    assert!(validate_file_path("../../etc/passwd", &missing()).is_err());
    assert!(validate_file_path("/path/../other", &missing()).is_err());

    let err = validate_file_path("../parent", &missing()).unwrap_err();
    assert!(matches!(err, AppError::CommandError(_)));
    assert!(err.message().contains("path traversal"));
}

#[test]
fn test_validate_file_path_rejects_too_long() {
    let long_path = "/".to_string() + &"a".repeat(4097);
    assert!(validate_file_path(&long_path, &missing()).is_err());
    let err = validate_file_path(&long_path, &missing()).unwrap_err();
    assert!(matches!(err, AppError::CommandError(_)));
    assert!(err.message().contains("too long"));
}

#[test]
fn test_validate_file_path_rejects_nonexistent() {
    assert!(validate_file_path("/nonexistent/file/12345.txt", &missing()).is_err());
    let err = validate_file_path("/nonexistent/file/12345.txt", &missing()).unwrap_err();
    assert!(matches!(err, AppError::NotFound(_)));
}

#[test]
fn test_validate_directory_path_with_temp_dir() {
    // Use a unique temporary directory to avoid name collisions between tests
    let temp_dir = tempfile::tempdir().unwrap();

    // Test that it validates successfully; the directory exists and is a
    // directory, which is what the metadata records
    let path_str = temp_dir.path().to_string_lossy();
    let result = validate_directory_path(&path_str, &dir());
    assert!(result.is_ok());
    // `temp_dir` is automatically cleaned up when it is dropped.
}

#[test]
fn test_validate_command_accepts_whitelist() {
    assert!(validate_command("npm").is_ok());
    assert!(validate_command("yarn").is_ok());
    assert!(validate_command("pnpm").is_ok());
    assert!(validate_command("bun").is_ok());
    assert!(validate_command("node").is_ok());
    assert!(validate_command("deno").is_ok());
}

#[test]
fn test_validate_command_rejects_non_whitelisted() {
    // Not whitelisted
    assert!(validate_command("rm").is_err());
    // Dangerous character; fails before the whitelist is even consulted
    assert!(validate_command("npm;rm -rf /").is_err());
}

#[test]
fn test_validate_command_rejects_paths_and_metachars() {
    assert!(validate_command("").is_err());
    assert!(validate_command("/usr/bin/npm").is_err());
    assert!(validate_command("npm\\evil").is_err());
    assert!(validate_command("npm`date`").is_err());
    assert!(validate_command("npm$(date)").is_err());
    assert!(validate_command("npm\n").is_err());
    assert!(validate_command("NPM").is_err(), "matching is case-sensitive");
}

#[test]
fn test_validate_command_args_allows_flags() {
    let args = vec!["run".to_string(), "dev".to_string(), "--port=4321".to_string()];
    assert!(validate_command_args(&args).is_ok());
}

#[test]
fn test_validate_command_args_rejects_metachars_and_excess() {
    let bad = vec!["dev; rm -rf /".to_string()];
    assert!(validate_command_args(&bad).is_err());

    let long_arg = vec!["a".repeat(1025)];
    assert!(validate_command_args(&long_arg).is_err());

    let many: Vec<String> = (0..65).map(|i| format!("a{}", i)).collect();
    assert!(validate_command_args(&many).is_err());
}
