//! Input validation in front of the process launcher: command whitelist,
//! argument screening, path screening, and PID range checks.
use crate::errors::AppError;
use crate::strutil;
use vstd::prelude::*;
use vstd::string::StrSliceExecFns;
use vstd::string::StringExecFns;

verus! {

/// Shell metacharacters that must never reach a shell unquoted from a
/// command name or argument.
pub open spec fn is_shell_metachar(c: char) -> bool {
    c == ';' || c == '&' || c == '|' || c == '`' || c == '$' || c == '(' || c == ')' || c == '<'
        || c == '>' || c == '\n' || c == '\r'
}

pub open spec fn has_metachar(s: Seq<char>) -> bool {
    exists|k: int| 0 <= k < s.len() && is_shell_metachar(#[trigger] s[k])
}

/// The fixed whitelist of runnable commands: the supported package
/// managers and runtimes, matched case-sensitively and exactly.
pub open spec fn is_whitelisted_command(s: Seq<char>) -> bool {
    s == "npm"@ || s == "yarn"@ || s == "pnpm"@ || s == "bun"@ || s == "node"@ || s == "deno"@
}

/// Every whitelisted command name is non-empty and free of path
/// separators and shell metacharacters.
pub proof fn lemma_whitelist_is_clean(s: Seq<char>)
    requires
        is_whitelisted_command(s),
    ensures
        s.len() > 0,
        !has_metachar(s),
        !s.contains('/'),
        !s.contains('\\'),
{
    reveal_strlit("npm");
    reveal_strlit("yarn");
    reveal_strlit("pnpm");
    reveal_strlit("bun");
    reveal_strlit("node");
    reveal_strlit("deno");
    assert forall|k: int| 0 <= k < s.len() implies !is_shell_metachar(s[k]) && s[k] != '/' && s[k]
        != '\\' by {
        if s == "npm"@ {
            assert(s[k] == 'n' || s[k] == 'p' || s[k] == 'm');
        } else if s == "yarn"@ {
            assert(s[k] == 'y' || s[k] == 'a' || s[k] == 'r' || s[k] == 'n');
        } else if s == "pnpm"@ {
            assert(s[k] == 'p' || s[k] == 'n' || s[k] == 'm');
        } else if s == "bun"@ {
            assert(s[k] == 'b' || s[k] == 'u' || s[k] == 'n');
        } else if s == "node"@ {
            assert(s[k] == 'n' || s[k] == 'o' || s[k] == 'd' || s[k] == 'e');
        } else {
            assert(s[k] == 'd' || s[k] == 'e' || s[k] == 'n' || s[k] == 'o');
        }
    }
}

/// Accepting exactly the whitelist implies rejecting every string that is
/// empty or contains a path separator or a shell metacharacter.
pub proof fn lemma_dangerous_never_whitelisted(s: Seq<char>)
    ensures
        (s.len() == 0 || has_metachar(s) || s.contains('/') || s.contains('\\'))
            ==> !is_whitelisted_command(s),
{
    if is_whitelisted_command(s) {
        lemma_whitelist_is_clean(s);
    }
}

fn has_metachar_exec(s: &str) -> (r: bool)
    ensures
        r == has_metachar(s@),
{
    let n = s.unicode_len();
    let mut i: usize = 0;
    while i < n
        invariant
            n == s@.len(),
            i <= n,
            forall|k: int| 0 <= k < i ==> !is_shell_metachar(#[trigger] s@[k]),
        decreases n - i,
    {
        let c = s.get_char(i);
        if c == ';' || c == '&' || c == '|' || c == '`' || c == '$' || c == '(' || c == ')' || c
            == '<' || c == '>' || c == '\n' || c == '\r' {
            assert(is_shell_metachar(s@[i as int]));
            return true;
        }
        i += 1;
    }
    false
}

/// Checks a command name against the whitelist. Returns `Ok` exactly for
/// whitelist members; empty names, path separators, and shell
/// metacharacters are all reported with a distinct message before the
/// whitelist itself is consulted.
pub fn validate_command(name: &str) -> (r: Result<(), AppError>)
    ensures
        r.is_ok() <==> is_whitelisted_command(name@),
        r.is_err() ==> r matches Err(AppError::CommandError(_)),
{
    proof {
        lemma_dangerous_never_whitelisted(name@);
    }
    if name.unicode_len() == 0 {
        return Err(AppError::CommandError(String::from_str("Command cannot be empty")));
    }
    if strutil::contains_char(name, '/') || strutil::contains_char(name, '\\') {
        return Err(
            AppError::CommandError(String::from_str("Command must not contain path separators")),
        );
    }
    if has_metachar_exec(name) {
        return Err(
            AppError::CommandError(
                String::from_str("Command contains shell metacharacters and was rejected"),
            ),
        );
    }
    if strutil::str_eq(name, "npm") || strutil::str_eq(name, "yarn") || strutil::str_eq(
        name,
        "pnpm",
    ) || strutil::str_eq(name, "bun") || strutil::str_eq(name, "node") || strutil::str_eq(
        name,
        "deno",
    ) {
        Ok(())
    } else {
        Err(AppError::CommandError(String::from_str("Command is not on the whitelist")))
    }
}

/// At most this many arguments are accepted for one launch.
pub const MAX_COMMAND_ARGS: usize = 64;

/// Arguments longer than this many characters are rejected.
pub const MAX_ARG_LEN: usize = 1024;

/// One argument is acceptable: not over-long, and free of shell
/// metacharacters (`=` stays allowed, so `--port=4321` passes).
pub open spec fn arg_ok(a: Seq<char>) -> bool {
    a.len() <= MAX_ARG_LEN && !has_metachar(a)
}

/// Screens an argument list: the batch is rejected when it is too large,
/// and each argument is rejected when over-long or containing a shell
/// metacharacter.
pub fn validate_command_args(args: &Vec<String>) -> (r: Result<(), AppError>)
    ensures
        r.is_ok() <==> (args@.len() <= MAX_COMMAND_ARGS && (forall|k: int|
            0 <= k < args@.len() ==> arg_ok(#[trigger] args.deep_view()[k]))),
        r.is_err() ==> r matches Err(AppError::CommandError(_)),
{
    if args.len() > MAX_COMMAND_ARGS {
        return Err(AppError::CommandError(String::from_str("Too many arguments")));
    }
    let mut i: usize = 0;
    while i < args.len()
        invariant
            args@.len() <= MAX_COMMAND_ARGS,
            i <= args@.len(),
            forall|k: int| 0 <= k < i ==> arg_ok(#[trigger] args.deep_view()[k]),
        decreases args@.len() - i,
    {
        let a: &String = &args[i];
        assert(a@ == args.deep_view()[i as int]);
        if a.as_str().unicode_len() > MAX_ARG_LEN {
            return Err(AppError::CommandError(String::from_str("Argument too long")));
        }
        if has_metachar_exec(a.as_str()) {
            return Err(
                AppError::CommandError(String::from_str("Argument contains shell metacharacters")),
            );
        }
        i += 1;
    }
    Ok(())
}

/// What the file system reports about a path; gathered by the caller,
/// since the library itself performs no I/O.
pub struct PathMeta {
    pub exists: bool,
    pub is_dir: bool,
}

/// The path contains a `..` segment between separators.
pub open spec fn has_parent_segment(s: Seq<char>) -> bool {
    strutil::split_char_spec(s, '/').contains(".."@)
}

fn has_parent_segment_exec(path: &str) -> (r: bool)
    ensures
        r == has_parent_segment(path@),
{
    let segs = strutil::split_char(path, '/');
    let mut i: usize = 0;
    while i < segs.len()
        invariant
            segs.deep_view() == strutil::split_char_spec(path@, '/'),
            i <= segs@.len(),
            forall|k: int| 0 <= k < i ==> segs.deep_view()[k] != ".."@,
        decreases segs@.len() - i,
    {
        assert(segs[i as int]@ == segs.deep_view()[i as int]);
        if strutil::str_eq(segs[i].as_str(), "..") {
            assert(strutil::split_char_spec(path@, '/').contains(".."@));
            return true;
        }
        i += 1;
    }
    false
}

/// The longest path accepted, in characters.
pub const MAX_PATH_LEN: usize = 4096;

/// A path is syntactically safe: non-empty, no null bytes, no parent
/// directory segments, and not over-long.
pub open spec fn path_syntax_ok(s: &str) -> bool {
    s@.len() > 0 && !s@.contains('\0') && !has_parent_segment(s@) && s@.len() <= MAX_PATH_LEN
}

/// Validates a directory path: syntax screening first (empty, null
/// bytes, `..` traversal, length), then the caller-observed file-system
/// facts (must exist, must be a directory). Performs no I/O itself; the
/// caller canonicalizes afterwards.
pub fn validate_directory_path(path: &str, meta: &PathMeta) -> (r: Result<(), AppError>)
    ensures
        r.is_ok() <==> (path_syntax_ok(path) && meta.exists && meta.is_dir),
        path@.len() == 0 ==> (r matches Err(AppError::NotFound(m)) && m@
            == "Path cannot be empty"@),
        path@.len() > 0 && path@.contains('\0') ==> (r matches Err(AppError::CommandError(m))
            && m@ == "Invalid path: null bytes not allowed"@),
        path@.len() > 0 && !path@.contains('\0') && has_parent_segment(path@) ==> (r matches Err(
            AppError::CommandError(m),
        ) && m@ == "Invalid path: path traversal not allowed"@),
        path@.len() > 0 && !path@.contains('\0') && !has_parent_segment(path@) && path@.len()
            > MAX_PATH_LEN ==> (r matches Err(AppError::CommandError(m)) && m@
            == "Invalid path: path too long"@),
        path_syntax_ok(path) && !meta.exists ==> (r matches Err(AppError::NotFound(m)) && m@
            == "Path does not exist: "@ + path@),
        path_syntax_ok(path) && meta.exists && !meta.is_dir ==> (r matches Err(
            AppError::CommandError(m),
        ) && m@ == "Path is not a directory: "@ + path@),
{
    if path.unicode_len() == 0 {
        return Err(AppError::NotFound(String::from_str("Path cannot be empty")));
    }
    if strutil::contains_char(path, '\0') {
        return Err(
            AppError::CommandError(String::from_str("Invalid path: null bytes not allowed")),
        );
    }
    if has_parent_segment_exec(path) {
        return Err(
            AppError::CommandError(String::from_str("Invalid path: path traversal not allowed")),
        );
    }
    if path.unicode_len() > MAX_PATH_LEN {
        return Err(AppError::CommandError(String::from_str("Invalid path: path too long")));
    }
    if !meta.exists {
        let mut m = String::from_str("Path does not exist: ");
        m.append(path);
        return Err(AppError::NotFound(m));
    }
    if !meta.is_dir {
        let mut m = String::from_str("Path is not a directory: ");
        m.append(path);
        return Err(AppError::CommandError(m));
    }
    Ok(())
}

/// Validates a file-or-directory path for quick actions: the same syntax
/// screening, then existence; the target need not be a directory.
pub fn validate_file_path(path: &str, meta: &PathMeta) -> (r: Result<(), AppError>)
    ensures
        r.is_ok() <==> (path_syntax_ok(path) && meta.exists),
        path@.len() == 0 ==> (r matches Err(AppError::NotFound(m)) && m@
            == "Path cannot be empty"@),
        path@.len() > 0 && path@.contains('\0') ==> (r matches Err(AppError::CommandError(m))
            && m@ == "Invalid path: null bytes not allowed"@),
        path@.len() > 0 && !path@.contains('\0') && has_parent_segment(path@) ==> (r matches Err(
            AppError::CommandError(m),
        ) && m@ == "Invalid path: path traversal not allowed"@),
        path@.len() > 0 && !path@.contains('\0') && !has_parent_segment(path@) && path@.len()
            > MAX_PATH_LEN ==> (r matches Err(AppError::CommandError(m)) && m@
            == "Invalid path: path too long"@),
        path_syntax_ok(path) && !meta.exists ==> (r matches Err(AppError::NotFound(m)) && m@
            == "Path does not exist: "@ + path@),
{
    if path.unicode_len() == 0 {
        return Err(AppError::NotFound(String::from_str("Path cannot be empty")));
    }
    if strutil::contains_char(path, '\0') {
        return Err(
            AppError::CommandError(String::from_str("Invalid path: null bytes not allowed")),
        );
    }
    if has_parent_segment_exec(path) {
        return Err(
            AppError::CommandError(String::from_str("Invalid path: path traversal not allowed")),
        );
    }
    if path.unicode_len() > MAX_PATH_LEN {
        return Err(AppError::CommandError(String::from_str("Invalid path: path too long")));
    }
    if !meta.exists {
        let mut m = String::from_str("Path does not exist: ");
        m.append(path);
        return Err(AppError::NotFound(m));
    }
    Ok(())
}

/// PIDs above this bound are rejected as obviously invalid.
pub const MAX_PID: u32 = 10_000_000;

/// Validates a process ID: `0` is reserved for the kernel, and values
/// above `MAX_PID` are outside any realistic PID range.
pub fn validate_pid(pid: u32) -> (r: Result<u32, AppError>)
    ensures
        r.is_ok() <==> (0 < pid <= MAX_PID),
        r.is_ok() ==> r == Ok::<u32, AppError>(pid),
        r.is_err() ==> r matches Err(AppError::CommandError(_)),
        pid == 0 ==> (r matches Err(AppError::CommandError(m)) && m@
            == "Invalid PID: 0 is reserved for the kernel and not a valid process"@),
        pid > MAX_PID ==> (r matches Err(AppError::CommandError(m)) && m@ == "Invalid PID: "@
            + strutil::dec_digits_of(pid as int) + " (out of range)"@),
{
    if pid == 0 {
        return Err(
            AppError::CommandError(
                String::from_str("Invalid PID: 0 is reserved for the kernel and not a valid process"),
            ),
        );
    }
    if pid > MAX_PID {
        let mut m = String::from_str("Invalid PID: ");
        let d = strutil::u32_to_string(pid);
        m.append(d.as_str());
        m.append(" (out of range)");
        return Err(AppError::CommandError(m));
    }
    Ok(pid)
}

} // verus!
