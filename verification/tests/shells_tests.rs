use runstack_lib::shells::build_command_part;
use runstack_lib::shells::build_shell_command;
use runstack_lib::shells::get_shells_to_try;
use runstack_lib::shells::join_quoted_args;
use runstack_lib::shells::shell_uses_login_flags;

#[test]
fn test_shells_user_shell_first_sh_last() {
    let shells = get_shells_to_try(Some("/opt/homebrew/bin/zsh"), true);
    assert!(shells.len() >= 2);
    assert_eq!(shells[0].path, "/opt/homebrew/bin/zsh");
    assert!(shells[0].bootstrap.contains(".zshrc"));
    let last = shells.last().unwrap();
    assert_eq!(last.path, "/bin/sh");
    assert_eq!(last.bootstrap, "true");
}

#[test]
fn test_shells_platform_defaults_without_user_shell() {
    let mac = get_shells_to_try(None, true);
    assert_eq!(mac[0].path, "/bin/zsh");
    let linux = get_shells_to_try(None, false);
    assert_eq!(linux[0].path, "/bin/bash");
    assert_eq!(linux.last().unwrap().path, "/bin/sh");
}

#[test]
fn test_shells_unknown_shell_gets_noop_bootstrap() {
    let shells = get_shells_to_try(Some("/usr/bin/nushell"), false);
    assert_eq!(shells[0].path, "/usr/bin/nushell");
    assert_eq!(shells[0].bootstrap, "true");
}

#[test]
fn test_shells_no_duplicate_defaults() {
    // A user bash on Linux suppresses the /bin/bash default
    let shells = get_shells_to_try(Some("/usr/local/bin/bash"), false);
    let bash_count = shells.iter().filter(|c| c.path.contains("bash")).count();
    assert_eq!(bash_count, 1);
}

#[test]
fn test_login_flags_by_base_name() {
    // Decided on the base name: "fish" is not mistaken for "sh", and a
    // name merely ending in "fish" is not fish
    assert!(shell_uses_login_flags("/bin/zsh"));
    assert!(shell_uses_login_flags("/bin/bash"));
    assert!(!shell_uses_login_flags("/usr/local/bin/fish"));
    assert!(!shell_uses_login_flags("/bin/sh"));
    assert!(shell_uses_login_flags("/bin/starfish"));
    assert!(shell_uses_login_flags("/bin/shell"));
}

#[test]
fn test_join_quoted_args_spaces_and_quoting() {
    let args = vec!["run".to_string(), "dev".to_string()];
    assert_eq!(join_quoted_args(&args), "'run' 'dev'");
    let none: Vec<String> = Vec::new();
    assert_eq!(join_quoted_args(&none), "");
}

#[test]
fn test_build_command_part_quotes_everything() {
    let args = vec!["run".to_string(), "dev".to_string()];
    let part = build_command_part("/home/user/my app", "npm", &args);
    assert_eq!(part, "cd '/home/user/my app' && 'npm' 'run' 'dev'");
}

#[test]
fn test_build_command_part_neutralizes_injection() {
    let args = vec!["--port=4321".to_string()];
    let part = build_command_part("/srv/x'; rm -rf /'", "npm", &args);
    assert_eq!(part, "cd '/srv/x'\"'\"'; rm -rf /'\"'\"'' && 'npm' '--port=4321'");
}

#[test]
fn test_build_shell_command_prepends_bootstrap() {
    let cmd = build_shell_command("true", "cd '/x' && 'npm' ");
    assert_eq!(cmd, "true; cd '/x' && 'npm' ");
}
