//! Project classification from directory markers: which package manager
//! a project uses and which framework it is built on. The callers hand
//! in which marker files exist; no file system is touched here.
use crate::strutil;
use vstd::prelude::*;
use vstd::string::StringExecFns;

verus! {

/// Which lock files exist in a project directory.
pub struct LockFiles {
    pub pnpm_lock: bool,
    pub yarn_lock: bool,
    pub package_lock: bool,
    pub bun_lockb: bool,
}

/// The package manager chosen for a set of lock files, by priority:
/// pnpm, yarn, npm, bun, with npm the default.
pub open spec fn package_manager_of(l: LockFiles) -> Seq<char> {
    if l.pnpm_lock {
        "pnpm"@
    } else if l.yarn_lock {
        "yarn"@
    } else if l.package_lock {
        "npm"@
    } else if l.bun_lockb {
        "bun"@
    } else {
        "npm"@
    }
}

/// Picks the package manager for a project from its lock files.
pub fn detect_package_manager(locks: &LockFiles) -> (r: String)
    ensures
        r@ == package_manager_of(*locks),
{
    if locks.pnpm_lock {
        String::from_str("pnpm")
    } else if locks.yarn_lock {
        String::from_str("yarn")
    } else if locks.package_lock {
        String::from_str("npm")
    } else if locks.bun_lockb {
        String::from_str("bun")
    } else {
        String::from_str("npm")
    }
}

/// Which framework marker files exist in a project directory, plus the
/// `package.json` content when there is one.
pub struct FrameworkMarkers {
    pub has_astro_config: bool,
    pub has_next_config: bool,
    pub has_vite_config: bool,
    pub has_src_dir: bool,
    pub has_public_dir: bool,
    pub package_json: Option<String>,
    pub has_svelte_config: bool,
    pub has_nuxt_config: bool,
}

/// The framework chosen for a set of markers, by priority: astro, next,
/// vite, create-react-app (src and public directories plus a
/// `react-scripts` mention in `package.json`), sveltekit, nuxt, and
/// plain node as the default.
pub open spec fn framework_of(m: FrameworkMarkers) -> Seq<char> {
    if m.has_astro_config {
        "astro"@
    } else if m.has_next_config {
        "nextjs"@
    } else if m.has_vite_config {
        "vite"@
    } else if m.has_src_dir && m.has_public_dir && m.package_json is Some && strutil::contains_seq(
        m.package_json.unwrap()@,
        "react-scripts"@,
    ) {
        "react"@
    } else if m.has_svelte_config {
        "sveltekit"@
    } else if m.has_nuxt_config {
        "nuxt"@
    } else {
        "node"@
    }
}

/// Classifies a project's framework from its marker files.
pub fn detect_framework(m: &FrameworkMarkers) -> (r: String)
    ensures
        r@ == framework_of(*m),
{
    if m.has_astro_config {
        return String::from_str("astro");
    }
    if m.has_next_config {
        return String::from_str("nextjs");
    }
    if m.has_vite_config {
        return String::from_str("vite");
    }
    if m.has_src_dir && m.has_public_dir {
        if let Some(content) = &m.package_json {
            if strutil::contains_substr(content.as_str(), "react-scripts") {
                return String::from_str("react");
            }
        }
    }
    if m.has_svelte_config {
        return String::from_str("sveltekit");
    }
    if m.has_nuxt_config {
        return String::from_str("nuxt");
    }
    String::from_str("node")
}

/// Directories skipped when a project's size is summed up: dependency
/// and build output trees.
pub fn is_size_scan_excluded(name: &str) -> (r: bool)
    ensures
        r == (name@ == "node_modules"@ || name@ == ".git"@ || name@ == "dist"@ || name@
            == "build"@),
{
    strutil::str_eq(name, "node_modules") || strutil::str_eq(name, ".git") || strutil::str_eq(
        name,
        "dist",
    ) || strutil::str_eq(name, "build")
}

} // verus!
