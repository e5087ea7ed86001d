use runstack_lib::quoting::escape_applescript;
use runstack_lib::quoting::escape_shell_single_quote;
use runstack_lib::quoting::shell_quote;

#[test]
fn test_escape_shell_single_quote_no_quotes() {
    // String without single quotes should remain unchanged
    assert_eq!(escape_shell_single_quote("hello"), "hello");
    assert_eq!(escape_shell_single_quote("path/to/file"), "path/to/file");
    assert_eq!(escape_shell_single_quote("npm"), "npm");
}

#[test]
fn test_escape_shell_single_quote_single_quote() {
    // Single quote should be escaped
    let result = escape_shell_single_quote("it's");
    assert_eq!(result, "it'\"'\"'s");

    // Verify the pattern: 'it' + "'" + 's'
    assert!(result.contains("'\"'\"'"), "Should contain escaped quote pattern");
}

#[test]
fn test_escape_shell_single_quote_multiple_quotes() {
    // Multiple single quotes should all be escaped
    let result = escape_shell_single_quote("don't won't can't");
    assert_eq!(result, "don'\"'\"'t won'\"'\"'t can'\"'\"'t");
}

#[test]
fn test_escape_shell_single_quote_only_quotes() {
    // String with only quotes
    let result = escape_shell_single_quote("'''");
    assert_eq!(result, "'\"'\"''\"'\"''\"'\"'");
}

#[test]
fn test_escape_shell_single_quote_empty_string() {
    // Empty string should remain empty
    assert_eq!(escape_shell_single_quote(""), "");
}

#[test]
fn test_escape_shell_single_quote_quote_at_start() {
    // Quote at the start
    let result = escape_shell_single_quote("'hello");
    assert_eq!(result, "'\"'\"'hello");
}

#[test]
fn test_escape_shell_single_quote_quote_at_end() {
    // Quote at the end
    let result = escape_shell_single_quote("hello'");
    assert_eq!(result, "hello'\"'\"'");
}

#[test]
fn test_shell_quote_no_quotes() {
    // String without quotes should be wrapped in single quotes
    assert_eq!(shell_quote("hello"), "'hello'");
    assert_eq!(shell_quote("path/to/file"), "'path/to/file'");
}

#[test]
fn test_shell_quote_with_quotes() {
    // String with quotes should be escaped and wrapped
    let result = shell_quote("it's");
    assert_eq!(result, "'it'\"'\"'s'");

    // Verify it starts and ends with single quotes
    assert!(result.starts_with('\''), "Should start with single quote");
    assert!(result.ends_with('\''), "Should end with single quote");
}

#[test]
fn test_shell_quote_complex_path() {
    // Test with a path that might have special characters
    let result = shell_quote("/path/to/project's files");
    assert_eq!(result, "'/path/to/project'\"'\"'s files'");
}

#[test]
fn test_shell_quote_empty_string() {
    // Empty string should be wrapped in quotes
    assert_eq!(shell_quote(""), "''");
}

#[test]
fn test_shell_quote_special_characters() {
    // Special characters (other than single quotes) are preserved;
    // single quotes around them make them literal to the shell
    let result = shell_quote("path with spaces & symbols");
    assert_eq!(result, "'path with spaces & symbols'");

    assert!(result.contains(" "), "Spaces should be preserved");
    assert!(result.contains("&"), "Ampersand should be preserved");
}

#[test]
fn test_shell_quote_unicode() {
    // Test with unicode characters
    let result = shell_quote("café");
    assert_eq!(result, "'café'");
}

#[test]
fn test_shell_quote_command_injection_attempt() {
    // Command injection attempts are neutralized: the semicolon ends up
    // inside quotes, making it literal
    let result = shell_quote("; rm -rf /");
    assert_eq!(result, "'; rm -rf /'");

    assert!(result.starts_with('\''), "Should start with quote");
    assert!(result.ends_with('\''), "Should end with quote");
}

#[test]
fn test_escape_applescript_quotes_and_backslashes() {
    assert_eq!(escape_applescript("plain"), "plain");
    assert_eq!(escape_applescript("a\"b"), "a\\\"b");
    assert_eq!(escape_applescript("a'b"), "a\\'b");
    assert_eq!(escape_applescript("a\\b"), "a\\\\b");
}
