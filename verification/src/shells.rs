//! Shell resolution: the ordered list of shells to try when launching a
//! command, each with the bootstrap snippet that loads the user's
//! environment, and the assembly of the full command line.
use crate::quoting;
use crate::strutil;
use vstd::prelude::*;
use vstd::string::StringExecFns;

verus! {

/// One shell to attempt: the executable path and the snippet that sources
/// its startup files (ignoring errors) before the command runs.
pub struct ShellCandidate {
    pub path: String,
    pub bootstrap: String,
}

/// The bootstrap snippet for a shell, chosen by its base name. Unknown
/// shells get the no-op `true`.
pub open spec fn bootstrap_of(name: Seq<char>) -> Seq<char> {
    if name == "zsh"@ {
        "source ~/.zshrc 2>/dev/null || source ~/.zprofile 2>/dev/null || true"@
    } else if name == "bash"@ {
        "source ~/.bashrc 2>/dev/null || source ~/.bash_profile 2>/dev/null || true"@
    } else if name == "fish"@ {
        "source ~/.config/fish/config.fish 2>/dev/null || true"@
    } else if name == "csh"@ {
        "source ~/.cshrc 2>/dev/null || true"@
    } else if name == "tcsh"@ {
        "source ~/.tcshrc 2>/dev/null || source ~/.cshrc 2>/dev/null || true"@
    } else if name == "ksh"@ {
        "source ~/.kshrc 2>/dev/null || source ~/.profile 2>/dev/null || true"@
    } else {
        "true"@
    }
}

/// Picks the bootstrap snippet for a shell base name.
pub fn bootstrap_for(name: &str) -> (r: String)
    ensures
        r@ == bootstrap_of(name@),
{
    if strutil::str_eq(name, "zsh") {
        String::from_str("source ~/.zshrc 2>/dev/null || source ~/.zprofile 2>/dev/null || true")
    } else if strutil::str_eq(name, "bash") {
        String::from_str(
            "source ~/.bashrc 2>/dev/null || source ~/.bash_profile 2>/dev/null || true",
        )
    } else if strutil::str_eq(name, "fish") {
        String::from_str("source ~/.config/fish/config.fish 2>/dev/null || true")
    } else if strutil::str_eq(name, "csh") {
        String::from_str("source ~/.cshrc 2>/dev/null || true")
    } else if strutil::str_eq(name, "tcsh") {
        String::from_str("source ~/.tcshrc 2>/dev/null || source ~/.cshrc 2>/dev/null || true")
    } else if strutil::str_eq(name, "ksh") {
        String::from_str("source ~/.kshrc 2>/dev/null || source ~/.profile 2>/dev/null || true")
    } else {
        String::from_str("true")
    }
}

/// A well-formed candidate: its bootstrap is the one its base name calls
/// for.
pub open spec fn candidate_wf(c: ShellCandidate) -> bool {
    c.bootstrap@ == bootstrap_of(strutil::after_last_char(c.path@, '/'))
}

/// Whether a shell supports login mode (`-l -c`); `fish` and plain `sh`
/// take command mode (`-c`) only. Decided on the base name, never by
/// substring, so a path ending in `fish` is not mistaken for `sh`.
pub open spec fn login_capable(path: Seq<char>) -> bool {
    strutil::after_last_char(path, '/') != "fish"@ && strutil::after_last_char(path, '/') != "sh"@
}

pub fn shell_uses_login_flags(path: &str) -> (r: bool)
    ensures
        r == login_capable(path@),
{
    let name = strutil::after_last(path, '/');
    !(strutil::str_eq(name, "fish") || strutil::str_eq(name, "sh"))
}

/// Some candidate's path contains `needle` as a substring.
pub open spec fn has_path_containing(s: Seq<ShellCandidate>, needle: Seq<char>) -> bool {
    exists|i: int| 0 <= i < s.len() && strutil::contains_seq((#[trigger] s[i]).path@, needle)
}

/// Appending a candidate keeps every substring-presence fact.
proof fn lemma_push_keeps_has(s_old: Seq<ShellCandidate>, s_new: Seq<ShellCandidate>, needle: Seq<char>)
    requires
        s_new.len() == s_old.len() + 1,
        s_new.drop_last() == s_old,
        has_path_containing(s_old, needle),
    ensures
        has_path_containing(s_new, needle),
{
    let i = choose|i: int|
        0 <= i < s_old.len() && strutil::contains_seq((#[trigger] s_old[i]).path@, needle);
    assert(s_new[i] == s_new.drop_last()[i]);
    assert(strutil::contains_seq(s_new[i].path@, needle));
}

fn any_path_contains(v: &Vec<ShellCandidate>, needle: &str) -> (r: bool)
    ensures
        r == has_path_containing(v@, needle@),
{
    let mut i: usize = 0;
    while i < v.len()
        invariant
            i <= v@.len(),
            forall|k: int| 0 <= k < i ==> !strutil::contains_seq(#[trigger] v@[k].path@, needle@),
        decreases v@.len() - i,
    {
        if strutil::contains_substr(v[i].path.as_str(), needle) {
            assert(has_path_containing(v@, needle@));
            return true;
        }
        i += 1;
    }
    false
}

fn push_shell(v: &mut Vec<ShellCandidate>, path: &str)
    ensures
        final(v)@.len() == old(v)@.len() + 1,
        final(v)@.drop_last() == old(v)@,
        final(v)@.last().path@ == path@,
        final(v)@.last().bootstrap@ == bootstrap_of(strutil::after_last_char(path@, '/')),
        candidate_wf(final(v)@.last()),
{
    let name = strutil::after_last(path, '/');
    let bs = bootstrap_for(name);
    v.push(ShellCandidate { path: String::from_str(path), bootstrap: bs });
    assert(final(v)@.drop_last() =~= old(v)@);
}

/// Produces the ordered list of shells to try: the user's configured
/// shell first (with its matching bootstrap), then platform defaults not
/// already present, then `fish` fallbacks, and always POSIX `sh` with a
/// no-op bootstrap last. Whatever the inputs, the list ends up holding a
/// zsh, a bash, and a fish candidate. Pure data construction; no I/O can
/// fail here.
pub fn get_shells_to_try(user_shell: Option<&str>, macos: bool) -> (r: Vec<ShellCandidate>)
    ensures
        r@.len() >= 1,
        forall|i: int| 0 <= i < r@.len() ==> candidate_wf(#[trigger] r@[i]),
        r@.last().path@ == "/bin/sh"@,
        r@.last().bootstrap@ == "true"@,
        user_shell matches Some(u) ==> r@[0].path@ == u@ && r@[0].bootstrap@ == bootstrap_of(
            strutil::after_last_char(u@, '/'),
        ),
        user_shell is None ==> r@[0].path@ == (if macos {
            "/bin/zsh"@
        } else {
            "/bin/bash"@
        }),
        has_path_containing(r@, "zsh"@),
        has_path_containing(r@, "bash"@),
        has_path_containing(r@, "fish"@),
{
    proof {
        reveal_strlit("/bin/zsh");
        reveal_strlit("/bin/bash");
        reveal_strlit("/usr/local/bin/fish");
        reveal_strlit("zsh");
        reveal_strlit("bash");
        reveal_strlit("fish");
        assert(strutil::contains_seq(("/bin/zsh")@, ("zsh")@)) by {
            assert(("/bin/zsh")@.subrange(5, 5 + ("zsh")@.len() as int) =~= ("zsh")@);
        }
        assert(strutil::contains_seq(("/bin/bash")@, ("bash")@)) by {
            assert(("/bin/bash")@.subrange(5, 5 + ("bash")@.len() as int) =~= ("bash")@);
        }
        assert(strutil::contains_seq(("/usr/local/bin/fish")@, ("fish")@)) by {
            assert(("/usr/local/bin/fish")@.subrange(15, 15 + ("fish")@.len() as int) =~= (
            "fish")@);
        }
    }
    let mut v: Vec<ShellCandidate> = Vec::new();
    if let Some(us) = user_shell {
        push_shell(&mut v, us);
    }
    if macos {
        if !any_path_contains(&v, "zsh") {
            push_shell(&mut v, "/bin/zsh");
            assert(has_path_containing(v@, "zsh"@)) by {
                assert(v@.last().path@ == ("/bin/zsh")@);
            }
        }
        if !any_path_contains(&v, "bash") {
            let ghost before = v@;
            push_shell(&mut v, "/bin/bash");
            proof {
                lemma_push_keeps_has(before, v@, "zsh"@);
                assert(has_path_containing(v@, "bash"@)) by {
                    assert(v@.last().path@ == ("/bin/bash")@);
                }
            }
        }
    } else {
        if !any_path_contains(&v, "bash") {
            push_shell(&mut v, "/bin/bash");
            assert(has_path_containing(v@, "bash"@)) by {
                assert(v@.last().path@ == ("/bin/bash")@);
            }
        }
        if !any_path_contains(&v, "zsh") {
            let ghost before = v@;
            push_shell(&mut v, "/bin/zsh");
            proof {
                lemma_push_keeps_has(before, v@, "bash"@);
                assert(has_path_containing(v@, "zsh"@)) by {
                    assert(v@.last().path@ == ("/bin/zsh")@);
                }
            }
        }
    }
    assert(has_path_containing(v@, "zsh"@));
    assert(has_path_containing(v@, "bash"@));
    if !any_path_contains(&v, "fish") {
        let ghost b1 = v@;
        push_shell(&mut v, "/usr/local/bin/fish");
        proof {
            lemma_push_keeps_has(b1, v@, "zsh"@);
            lemma_push_keeps_has(b1, v@, "bash"@);
            assert(has_path_containing(v@, "fish"@)) by {
                assert(v@.last().path@ == ("/usr/local/bin/fish")@);
            }
        }
        let ghost b2 = v@;
        push_shell(&mut v, "/opt/homebrew/bin/fish");
        proof {
            lemma_push_keeps_has(b2, v@, "zsh"@);
            lemma_push_keeps_has(b2, v@, "bash"@);
            lemma_push_keeps_has(b2, v@, "fish"@);
        }
    }
    let ghost b3 = v@;
    push_shell(&mut v, "/bin/sh");
    proof {
        lemma_push_keeps_has(b3, v@, "zsh"@);
        lemma_push_keeps_has(b3, v@, "bash"@);
        lemma_push_keeps_has(b3, v@, "fish"@);
        reveal_strlit("/bin/sh");
        reveal_strlit("sh");
        reveal_strlit("csh");
        reveal_strlit("tcsh");
        reveal_strlit("ksh");
        strutil::lemma_after_last_no_c("/bin/sh"@, '/', 5);
        assert("/bin/sh"@.subrange(5, 7) =~= "sh"@);
        assert(bootstrap_of("sh"@) == "true"@);
    }
    v
}

/// `args` joined with single spaces, each argument shell-quoted.
pub open spec fn quoted_join(args: Seq<Seq<char>>) -> Seq<char>
    decreases args.len(),
{
    if args.len() == 0 {
        Seq::empty()
    } else if args.len() == 1 {
        quoting::quoted(args[0])
    } else {
        quoted_join(args.drop_last()) + seq![' '] + quoting::quoted(args.last())
    }
}

/// Quotes every argument and joins them with spaces.
pub fn join_quoted_args(args: &Vec<String>) -> (r: String)
    ensures
        r@ == quoted_join(args.deep_view()),
{
    let mut r = String::new();
    let mut i: usize = 0;
    while i < args.len()
        invariant
            i <= args@.len(),
            r@ == quoted_join(args.deep_view().subrange(0, i as int)),
        decreases args@.len() - i,
    {
        let ghost pre = args.deep_view().subrange(0, i as int);
        let ghost pre2 = args.deep_view().subrange(0, i + 1);
        if i > 0 {
            r.append(" ");
            proof {
                reveal_strlit(" ");
                assert((" ")@ =~= seq![' ']);
            }
        }
        let q = quoting::shell_quote(args[i].as_str());
        r.append(q.as_str());
        proof {
            assert(pre2.drop_last() =~= pre);
            assert(pre2.last() == args.deep_view()[i as int]);
            assert(r@ =~= quoted_join(pre2));
        }
        i += 1;
    }
    assert(args.deep_view().subrange(0, args.deep_view().len() as int) =~= args.deep_view());
    r
}

/// The command part executed after the bootstrap: change to the working
/// directory and run the quoted command with its quoted arguments.
pub open spec fn command_part_spec(cwd: Seq<char>, cmd: Seq<char>, args: Seq<Seq<char>>) -> Seq<
    char,
> {
    "cd "@ + quoting::quoted(cwd) + " && "@ + quoting::quoted(cmd) + " "@ + quoted_join(args)
}

/// Builds `cd <cwd> && <command> <args...>` with every piece
/// shell-quoted.
pub fn build_command_part(cwd: &str, command: &str, args: &Vec<String>) -> (r: String)
    ensures
        r@ == command_part_spec(cwd@, command@, args.deep_view()),
{
    let mut r = String::from_str("cd ");
    let qc = quoting::shell_quote(cwd);
    r.append(qc.as_str());
    r.append(" && ");
    let qm = quoting::shell_quote(command);
    r.append(qm.as_str());
    r.append(" ");
    let ja = join_quoted_args(args);
    r.append(ja.as_str());
    assert(r@ =~= command_part_spec(cwd@, command@, args.deep_view()));
    r
}

/// The full string handed to the shell: bootstrap snippet, `;`, command
/// part.
pub open spec fn shell_command_spec(bootstrap: Seq<char>, part: Seq<char>) -> Seq<char> {
    bootstrap + "; "@ + part
}

pub fn build_shell_command(bootstrap: &str, part: &str) -> (r: String)
    ensures
        r@ == shell_command_spec(bootstrap@, part@),
{
    let mut r = String::from_str(bootstrap);
    r.append("; ");
    r.append(part);
    assert(r@ =~= shell_command_spec(bootstrap@, part@));
    r
}

} // verus!
