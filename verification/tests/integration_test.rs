//! Integration checks across modules, through the public API.

use runstack_lib::validation;

#[test]
fn test_validation_pid_integration() {
    // Test that validate_pid works correctly
    assert!(validation::validate_pid(0).is_err());
    assert!(validation::validate_pid(1).is_ok());
    assert!(validation::validate_pid(12345).is_ok());
    assert!(validation::validate_pid(10_000_001).is_err());
}
