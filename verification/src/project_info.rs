//! Project records and their enrichment with gathered facts: runtime
//! version, package scripts, size, and modification time.
use crate::json;
use crate::strutil;
use vstd::prelude::*;
use vstd::string::StringExecFns;

verus! {

/// One discovered project.
pub struct Project {
    pub name: String,
    pub path: String,
    pub runtime: String,
    pub package_manager: Option<String>,
    pub port: Option<u16>,
    pub framework: Option<String>,
    pub runtime_version: Option<String>,
    pub scripts: Option<Vec<(String, String)>>,
    pub size: Option<u64>,
    pub modified: Option<i64>,
}

/// The facts gathered for enrichment, all observed by the caller.
pub struct ProjectExtras {
    pub runtime_version: Option<String>,
    pub scripts: Option<Vec<(String, String)>>,
    pub size: Option<u64>,
    pub modified: Option<i64>,
}

/// Fills a project record with gathered facts: version, size, and
/// modification time always; scripts only for the Node.js and Bun
/// runtimes. The identifying fields stay untouched.
pub fn enrich_project_info(project: Project, extras: ProjectExtras) -> (r: Project)
    ensures
        r.name == project.name,
        r.path == project.path,
        r.runtime == project.runtime,
        r.package_manager == project.package_manager,
        r.port == project.port,
        r.framework == project.framework,
        r.runtime_version == extras.runtime_version,
        r.size == extras.size,
        r.modified == extras.modified,
        (project.runtime@ == "Node.js"@ || project.runtime@ == "Bun"@) ==> r.scripts
            == extras.scripts,
        !(project.runtime@ == "Node.js"@ || project.runtime@ == "Bun"@) ==> r.scripts
            == project.scripts,
{
    let is_scripted = strutil::str_eq(project.runtime.as_str(), "Node.js") || strutil::str_eq(
        project.runtime.as_str(),
        "Bun",
    );
    let scripts = if is_scripted {
        extras.scripts
    } else {
        project.scripts
    };
    Project {
        name: project.name,
        path: project.path,
        runtime: project.runtime,
        package_manager: project.package_manager,
        port: project.port,
        framework: project.framework,
        runtime_version: extras.runtime_version,
        scripts,
        size: extras.size,
        modified: extras.modified,
    }
}

/// What a runtime's version-command output means: Node.js and Bun print
/// the version alone (trimmed); Deno prints `deno <version> ...` on its
/// first line; other runtimes report nothing.
pub open spec fn runtime_version_spec(rt: Seq<char>, out: Seq<char>) -> Option<Seq<char>> {
    if rt == "Node.js"@ || rt == "Bun"@ {
        Some(strutil::trim_spaces_spec(out))
    } else if rt == "Deno"@ {
        let lines = strutil::lines_spec(out);
        if lines.len() > 0 {
            let toks = strutil::tokens_of(lines[0]);
            if toks.len() >= 2 {
                Some(toks[1])
            } else {
                None
            }
        } else {
            None
        }
    } else {
        None
    }
}

/// Reads the version out of a runtime's version-command output.
pub fn parse_runtime_version(runtime: &str, output: &str) -> (r: Option<String>)
    ensures
        match r {
            Some(v) => runtime_version_spec(runtime@, output@) == Some(v@),
            None => runtime_version_spec(runtime@, output@) is None,
        },
{
    if strutil::str_eq(runtime, "Node.js") || strutil::str_eq(runtime, "Bun") {
        let t = strutil::trim_spaces(output);
        return Some(String::from_str(t));
    }
    if strutil::str_eq(runtime, "Deno") {
        let lines = strutil::split_lines(output);
        if lines.len() > 0 {
            assert(lines[0]@ == strutil::lines_spec(output@)[0]);
            let toks = strutil::split_ws(lines[0].as_str());
            if toks.len() >= 2 {
                assert(toks[1]@ == strutil::tokens_of(strutil::lines_spec(output@)[0])[1]);
                return Some(toks[1].clone());
            }
        }
        return None;
    }
    None
}

/// What a cache holds for a name: the version stored by the first entry
/// whose name matches.
pub open spec fn cache_lookup(entries: Seq<(String, String)>, name: Seq<char>) -> Option<
    Seq<char>,
>
    decreases entries.len(),
{
    if entries.len() == 0 {
        None
    } else if entries[0].0@ == name {
        Some(entries[0].1@)
    } else {
        cache_lookup(entries.drop_first(), name)
    }
}

/// A cache of detected runtime versions, keyed by runtime name. Reads
/// far outnumber writes; a version is stored at most once per name, and
/// overwriting with a fresh detection is permitted. The caller owns the
/// cache and provides any locking it needs.
pub struct VersionCache {
    entries: Vec<(String, String)>,
}

impl VersionCache {
    pub fn new() -> (r: VersionCache)
        ensures
            r@.len() == 0,
    {
        VersionCache { entries: Vec::new() }
    }

    pub closed spec fn view(&self) -> Seq<(String, String)> {
        self.entries@
    }

    /// The version cached for `name`, if any.
    pub fn get(&self, name: &str) -> (r: Option<String>)
        ensures
            match r {
                Some(v) => cache_lookup(self@, name@) == Some(v@),
                None => cache_lookup(self@, name@) is None,
            },
    {
        let mut i: usize = 0;
        let ghost entries = self.entries@;
        assert(entries.subrange(0, entries.len() as int) =~= entries);
        while i < self.entries.len()
            invariant
                i <= entries.len(),
                entries == self.entries@,
                cache_lookup(entries, name@) == cache_lookup(
                    entries.subrange(i as int, entries.len() as int),
                    name@,
                ),
            decreases entries.len() - i,
        {
            let ghost rest = entries.subrange(i as int, entries.len() as int);
            assert(rest[0] == entries[i as int]);
            assert(rest.drop_first() =~= entries.subrange(i + 1, entries.len() as int));
            if strutil::str_eq(self.entries[i].0.as_str(), name) {
                return Some(self.entries[i].1.clone());
            }
            i += 1;
        }
        None
    }

    /// Stores a version for `name`, overwriting an earlier entry for the
    /// same name; entries for other names are untouched.
    pub fn put(&mut self, name: &str, version: &str)
        ensures
            cache_lookup(final(self)@, name@) == Some(version@),
            forall|other: Seq<char>|
                other != name@ ==> #[trigger] cache_lookup(final(self)@, other) == cache_lookup(
                    old(self)@,
                    other,
                ),
    {
        let mut i: usize = 0;
        let ghost entries = self.entries@;
        assert(entries.subrange(0, entries.len() as int) =~= entries);
        while i < self.entries.len()
            invariant
                i <= entries.len(),
                entries == self.entries@,
                entries == old(self)@,
                forall|k: int| 0 <= k < i ==> (#[trigger] entries[k]).0@ != name@,
            decreases entries.len() - i,
        {
            if strutil::str_eq(self.entries[i].0.as_str(), name) {
                let ghost pre = self.entries@;
                let pair = (String::from_str(name), String::from_str(version));
                self.entries.set(i, pair);
                proof {
                    lemma_cache_set(pre, self.entries@, i as int, name@, version@);
                }
                return ;
            }
            i += 1;
        }
        let ghost pre = self.entries@;
        self.entries.push((String::from_str(name), String::from_str(version)));
        proof {
            lemma_cache_append(pre, self.entries@, name@, version@);
        }
    }
}

/// Replacing the first entry whose name matches rewires the lookup for
/// that name alone.
proof fn lemma_cache_set(
    pre: Seq<(String, String)>,
    now: Seq<(String, String)>,
    i: int,
    name: Seq<char>,
    version: Seq<char>,
)
    requires
        0 <= i < pre.len(),
        now.len() == pre.len(),
        forall|k: int| 0 <= k < pre.len() && k != i ==> now[k] == #[trigger] pre[k],
        pre[i].0@ == name,
        now[i].0@ == name,
        now[i].1@ == version,
        forall|k: int| 0 <= k < i ==> (#[trigger] pre[k]).0@ != name,
    ensures
        cache_lookup(now, name) == Some(version),
        forall|other: Seq<char>|
            other != name ==> #[trigger] cache_lookup(now, other) == cache_lookup(pre, other),
    decreases i,
{
    if i == 0 {
        assert forall|other: Seq<char>| other != name implies #[trigger] cache_lookup(now, other)
            == cache_lookup(pre, other) by {
            if pre[0].0@ == other {
                assert(other == name);
                assert(false);
            } else {
                assert(now.drop_first() =~= pre.drop_first());
            }
        }
    } else {
        assert(now[0] == pre[0]);
        assert(pre[0].0@ != name);
        lemma_cache_set(pre.drop_first(), now.drop_first(), i - 1, name, version);
        assert(cache_lookup(now, name) == cache_lookup(now.drop_first(), name));
        assert forall|other: Seq<char>| other != name implies #[trigger] cache_lookup(now, other)
            == cache_lookup(pre, other) by {
            if pre[0].0@ != other {
                assert(cache_lookup(now.drop_first(), other) == cache_lookup(
                    pre.drop_first(),
                    other,
                ));
            }
        }
    }
}

/// Appending an entry for a name no earlier entry has adds exactly that
/// lookup.
proof fn lemma_cache_append(
    pre: Seq<(String, String)>,
    now: Seq<(String, String)>,
    name: Seq<char>,
    version: Seq<char>,
)
    requires
        now.len() == pre.len() + 1,
        forall|k: int| 0 <= k < pre.len() ==> now[k] == #[trigger] pre[k],
        now.last().0@ == name,
        now.last().1@ == version,
        forall|k: int| 0 <= k < pre.len() ==> (#[trigger] pre[k]).0@ != name,
    ensures
        cache_lookup(now, name) == Some(version),
        forall|other: Seq<char>|
            other != name ==> #[trigger] cache_lookup(now, other) == cache_lookup(pre, other),
    decreases pre.len(),
{
    if pre.len() == 0 {
        assert(now[0] == now.last());
        assert(cache_lookup(now, name) == Some(version));
        assert forall|other: Seq<char>| other != name implies #[trigger] cache_lookup(now, other)
            == cache_lookup(pre, other) by {
            assert(now[0].0@ == name);
            assert(now.drop_first() =~= Seq::<(String, String)>::empty());
            assert(cache_lookup(now, other) == cache_lookup(now.drop_first(), other));
            assert(cache_lookup(now.drop_first(), other) is None);
            assert(cache_lookup(pre, other) is None);
        }
    } else {
        assert(now[0] == pre[0]);
        assert(pre[0].0@ != name);
        assert(now.drop_first().len() == pre.drop_first().len() + 1);
        assert(now.drop_first().last() == now.last());
        lemma_cache_append(pre.drop_first(), now.drop_first(), name, version);
        assert(cache_lookup(now, name) == cache_lookup(now.drop_first(), name));
        assert forall|other: Seq<char>| other != name implies #[trigger] cache_lookup(now, other)
            == cache_lookup(pre, other) by {
            if pre[0].0@ != other {
                assert(cache_lookup(now.drop_first(), other) == cache_lookup(
                    pre.drop_first(),
                    other,
                ));
            }
        }
    }
}

/// Collects the `scripts` table of a `package.json` document as
/// name/command pairs, keeping only string-valued entries. Parsing is
/// done by the JSON library; `None` when the document does not parse or
/// has no scripts object.
pub fn get_package_json_scripts(content: &str) -> (r: Option<Vec<(String, String)>>) {
    let v = match json::json_parse(content) {
        None => {
            return None;
        },
        Some(v) => v,
    };
    let scripts_val = match json::json_get(&v, "scripts") {
        None => {
            return None;
        },
        Some(s) => s,
    };
    let m = match json::json_as_object(scripts_val) {
        None => {
            return None;
        },
        Some(m) => m,
    };
    let keys = json::json_map_keys(m);
    let mut out: Vec<(String, String)> = Vec::new();
    let mut i: usize = 0;
    while i < keys.len()
        decreases keys@.len() - i,
    {
        if let Some(val) = json::json_map_get(m, keys[i].as_str()) {
            if let Some(vs) = json::json_as_str(val) {
                let k = keys[i].clone();
                out.push((k, vs));
            }
        }
        i += 1;
    }
    Some(out)
}

} // verus!
