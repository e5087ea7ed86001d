//! Project port detection: reading a dev-server port out of framework
//! configuration files, package scripts, and framework defaults.
use crate::json;
use crate::strutil;
use vstd::prelude::*;
use vstd::string::StrSliceExecFns;
use vstd::string::StringExecFns;

verus! {

/// The default port of each supported framework; every framework gets
/// one, with a generic fallback.
pub open spec fn default_port_of(fw: Seq<char>) -> Option<u16> {
    if fw == "astro"@ {
        Some(4321u16)
    } else if fw == "nextjs"@ {
        Some(3000u16)
    } else if fw == "vite"@ {
        Some(5173u16)
    } else if fw == "react"@ {
        Some(3000u16)
    } else if fw == "sveltekit"@ {
        Some(5173u16)
    } else if fw == "nuxt"@ {
        Some(3000u16)
    } else {
        Some(3000u16)
    }
}

pub fn get_default_port(framework: &str) -> (r: Option<u16>)
    ensures
        r == default_port_of(framework@),
        r is Some,
{
    if strutil::str_eq(framework, "astro") {
        Some(4321)
    } else if strutil::str_eq(framework, "nextjs") {
        Some(3000)
    } else if strutil::str_eq(framework, "vite") {
        Some(5173)
    } else if strutil::str_eq(framework, "react") {
        Some(3000)
    } else if strutil::str_eq(framework, "sveltekit") {
        Some(5173)
    } else if strutil::str_eq(framework, "nuxt") {
        Some(3000)
    } else {
        Some(3000)
    }
}

/// Deno dev servers default to port 8000.
pub fn detect_port_deno() -> (r: Option<u16>)
    ensures
        r == Some(8000u16),
{
    Some(8000)
}

/// A configuration value with surrounding punctuation stripped:
/// whitespace, then commas, quotes, braces, then whitespace again.
pub open spec fn cleaned_value(v: Seq<char>) -> Seq<char> {
    strutil::trim_spaces_spec(
        strutil::trim_char_spec(
            strutil::trim_char_spec(
                strutil::trim_char_spec(
                    strutil::trim_char_spec(
                        strutil::trim_char_spec(strutil::trim_spaces_spec(v), ','),
                        '"',
                    ),
                    '\'',
                ),
                '}',
            ),
            '{',
        ),
    )
}

/// The port named by one configuration line: the line mentions the key
/// and a colon, and what follows the first colon cleans up to a positive
/// 16-bit number.
pub open spec fn config_line_port(line: Seq<char>, key: Seq<char>) -> Option<u16> {
    if strutil::contains_seq(line, key) && line.contains(':') {
        let parts = strutil::split_char_spec(line, ':');
        if parts.len() >= 2 {
            match strutil::parse_u16_spec(cleaned_value(parts[1])) {
                Some(p) => if p > 0 {
                    Some(p)
                } else {
                    None
                },
                None => None,
            }
        } else {
            None
        }
    } else {
        None
    }
}

/// Every port a configuration scan can name is positive.
proof fn lemma_config_lines_positive(lines: Seq<Seq<char>>, key: Seq<char>)
    ensures
        config_lines_port(lines, key) matches Some(p) ==> p > 0,
    decreases lines.len(),
{
    if lines.len() > 0 {
        lemma_config_lines_positive(lines.drop_first(), key);
    }
}

pub open spec fn config_lines_port(lines: Seq<Seq<char>>, key: Seq<char>) -> Option<u16>
    decreases lines.len(),
{
    if lines.len() == 0 {
        None
    } else {
        match config_line_port(lines[0], key) {
            Some(p) => Some(p),
            None => config_lines_port(lines.drop_first(), key),
        }
    }
}

pub open spec fn config_port_spec(content: Seq<char>, key: Seq<char>) -> Option<u16> {
    config_lines_port(strutil::lines_spec(content), key)
}

/// Scans a configuration file for `key: <number>` (also `"key": 1234`,
/// or inside braces) and returns the first positive port found.
pub fn extract_port_from_config_file(content: &str, key: &str) -> (r: Option<u16>)
    ensures
        r == config_port_spec(content@, key@),
{
    let lines = strutil::split_lines(content);
    let ghost dv = lines.deep_view();
    let mut i: usize = 0;
    assert(dv.subrange(0, dv.len() as int) =~= dv);
    while i < lines.len()
        invariant
            i <= dv.len(),
            dv == lines.deep_view(),
            dv.len() == lines@.len(),
            config_port_spec(content@, key@) == config_lines_port(
                dv.subrange(i as int, dv.len() as int),
                key@,
            ),
        decreases dv.len() - i,
    {
        let ghost rest = dv.subrange(i as int, dv.len() as int);
        assert(rest[0] == dv[i as int]);
        assert(rest.drop_first() =~= dv.subrange(i + 1, dv.len() as int));
        assert(lines[i as int]@ == dv[i as int]);
        let line: &str = lines[i].as_str();
        if strutil::contains_substr(line, key) && strutil::contains_char(line, ':') {
            let parts = strutil::split_char(line, ':');
            if parts.len() >= 2 {
                assert(parts[1]@ == strutil::split_char_spec(line@, ':')[1]);
                let t0 = strutil::trim_spaces(parts[1].as_str());
                let t1 = strutil::trim_char(t0, ',');
                let t2 = strutil::trim_char(t1, '"');
                let t3 = strutil::trim_char(t2, '\'');
                let t4 = strutil::trim_char(t3, '}');
                let t5 = strutil::trim_char(t4, '{');
                let t6 = strutil::trim_spaces(t5);
                if let Some(p) = strutil::parse_u16(t6) {
                    if p > 0 {
                        return Some(p);
                    }
                }
            }
        }
        i += 1;
    }
    assert(dv.subrange(dv.len() as int, dv.len() as int) =~= Seq::<Seq<char>>::empty());
    None
}

/// A parsed number admitted as a port only when it is positive: port 0
/// means "ephemeral/unassigned" and is never a valid discovery result.
pub open spec fn positive_port(o: Option<u16>) -> Option<u16> {
    match o {
        Some(p) => if p > 0 {
            Some(p)
        } else {
            None
        },
        None => None,
    }
}

/// The port named by one whitespace-separated word of a script line, by
/// the patterns `--port 3000` (with the number in the following word),
/// `PORT=3000`, `--port=3000`, and `host:3000`. Every pattern admits
/// positive ports only.
pub open spec fn word_port(words: Seq<Seq<char>>, i: int) -> Option<u16> {
    let w = words[i];
    if (w == "--port"@ || w == "-p"@) && i + 1 < words.len() && positive_port(
        strutil::parse_u16_spec(words[i + 1]),
    ) is Some {
        positive_port(strutil::parse_u16_spec(words[i + 1]))
    } else if w.len() >= "PORT="@.len() && w.subrange(0, "PORT="@.len() as int) == "PORT="@
        && positive_port(
        strutil::parse_u16_spec(w.subrange("PORT="@.len() as int, w.len() as int)),
    ) is Some {
        positive_port(strutil::parse_u16_spec(w.subrange("PORT="@.len() as int, w.len() as int)))
    } else if w.len() >= "--port="@.len() && w.subrange(0, "--port="@.len() as int) == "--port="@
        && positive_port(
        strutil::parse_u16_spec(w.subrange("--port="@.len() as int, w.len() as int)),
    ) is Some {
        positive_port(
            strutil::parse_u16_spec(w.subrange("--port="@.len() as int, w.len() as int)),
        )
    } else if w.contains(':') {
        colon_port(w)
    } else {
        None
    }
}

/// The `host:port` pattern: the text after the last colon is at most
/// five characters, all digits, and a positive 16-bit number.
pub open spec fn colon_port(w: Seq<char>) -> Option<u16> {
    let parts = strutil::split_char_spec(w, ':');
    if parts.len() >= 2 {
        let lastp = parts.last();
        if lastp.len() <= 5 && strutil::all_digits(lastp) {
            positive_port(strutil::parse_u16_spec(lastp))
        } else {
            None
        }
    } else {
        None
    }
}

/// Every port a single word can name is positive.
proof fn lemma_word_port_positive(words: Seq<Seq<char>>, i: int)
    ensures
        word_port(words, i) matches Some(p) ==> p > 0,
{
}

/// Every port the word scan can name is positive.
proof fn lemma_first_word_port_positive(words: Seq<Seq<char>>, i: int)
    ensures
        first_word_port(words, i) matches Some(p) ==> p > 0,
    decreases words.len() - i,
{
    if 0 <= i < words.len() {
        lemma_word_port_positive(words, i);
        lemma_first_word_port_positive(words, i + 1);
    }
}

/// Script-port extraction never yields port 0: a `ListeningPort` of 0
/// means "ephemeral/unassigned" and is never a valid discovery result.
pub proof fn lemma_extract_port_positive(s: Seq<char>)
    ensures
        extract_port_spec(s) matches Some(p) ==> p > 0,
{
    lemma_first_word_port_positive(strutil::tokens_of(s), 0);
}

pub open spec fn first_word_port(words: Seq<Seq<char>>, i: int) -> Option<u16>
    decreases words.len() - i,
{
    if !(0 <= i < words.len()) {
        None
    } else {
        match word_port(words, i) {
            Some(p) => Some(p),
            None => first_word_port(words, i + 1),
        }
    }
}

/// The port named anywhere in a script line, scanning its words left to
/// right.
pub open spec fn extract_port_spec(s: Seq<char>) -> Option<u16> {
    first_word_port(strutil::tokens_of(s), 0)
}

fn word_port_exec(words: &Vec<String>, i: usize) -> (r: Option<u16>)
    requires
        i < words@.len(),
    ensures
        r == word_port(words.deep_view(), i as int),
{
    let w: &str = words[i].as_str();
    assert(w@ == words.deep_view()[i as int]);
    if strutil::str_eq(w, "--port") || strutil::str_eq(w, "-p") {
        if words.len() - i > 1 {
            assert(words[i + 1]@ == words.deep_view()[i as int + 1]);
            if let Some(p) = strutil::parse_u16(words[i + 1].as_str()) {
                if p > 0 {
                    return Some(p);
                }
            }
        }
    }
    if strutil::starts_with(w, "PORT=") {
        let rest = strutil::drop_prefix(w, "PORT=".unicode_len());
        if let Some(p) = strutil::parse_u16(rest) {
            if p > 0 {
                return Some(p);
            }
        }
    }
    if strutil::starts_with(w, "--port=") {
        let rest = strutil::drop_prefix(w, "--port=".unicode_len());
        if let Some(p) = strutil::parse_u16(rest) {
            if p > 0 {
                return Some(p);
            }
        }
    }
    if strutil::contains_char(w, ':') {
        let parts = strutil::split_char(w, ':');
        if parts.len() >= 2 {
            let lastp: &str = parts[parts.len() - 1].as_str();
            assert(lastp@ == strutil::split_char_spec(w@, ':').last());
            if lastp.unicode_len() <= 5 && all_digits_exec(lastp) {
                if let Some(p) = strutil::parse_u16(lastp) {
                    if p > 0 {
                        return Some(p);
                    }
                }
            }
        }
    }
    None
}

fn all_digits_exec(s: &str) -> (r: bool)
    ensures
        r == strutil::all_digits(s@),
{
    let n = s.unicode_len();
    let mut i: usize = 0;
    while i < n
        invariant
            n == s@.len(),
            i <= n,
            forall|k: int| 0 <= k < i ==> strutil::is_digit_char(#[trigger] s@[k]),
        decreases n - i,
    {
        let c = s.get_char(i);
        if !('0' <= c && c <= '9') {
            assert(!strutil::is_digit_char(s@[i as int]));
            return false;
        }
        i += 1;
    }
    true
}

/// Finds a port in a free-form script string such as
/// `vite --port 5173` or `next dev -p 3001`.
pub fn extract_port_from_string(s: &str) -> (r: Option<u16>)
    ensures
        r == extract_port_spec(s@),
{
    let words = strutil::split_ws(s);
    let ghost wv = words.deep_view();
    let mut i: usize = 0;
    while i < words.len()
        invariant
            i <= wv.len(),
            wv == words.deep_view(),
            wv.len() == words@.len(),
            extract_port_spec(s@) == first_word_port(wv, i as int),
        decreases wv.len() - i,
    {
        if let Some(p) = word_port_exec(&words, i) {
            return Some(p);
        }
        i += 1;
    }
    None
}

/// Only these frameworks read a port out of their own configuration
/// files.
pub open spec fn uses_config_port(fw: Seq<char>) -> bool {
    fw == "astro"@ || fw == "nextjs"@ || fw == "vite"@
}

pub open spec fn contents_port(cs: Seq<Seq<char>>, key: Seq<char>) -> Option<u16>
    decreases cs.len(),
{
    if cs.len() == 0 {
        None
    } else {
        match config_port_spec(cs[0], key) {
            Some(p) => Some(p),
            None => contents_port(cs.drop_first(), key),
        }
    }
}

/// Every port the per-file configuration chain can name is positive.
proof fn lemma_contents_port_positive(cs: Seq<Seq<char>>, key: Seq<char>)
    ensures
        contents_port(cs, key) matches Some(p) ==> p > 0,
    decreases cs.len(),
{
    if cs.len() > 0 {
        lemma_config_lines_positive(strutil::lines_spec(cs[0]), key);
        lemma_contents_port_positive(cs.drop_first(), key);
    }
}

/// Scans the framework's configuration files (their contents handed in,
/// in preference order) for a `port:` entry; only frameworks with known
/// config conventions are scanned.
pub fn detect_port_from_config(framework: &str, contents: &Vec<String>) -> (r: Option<u16>)
    ensures
        r == (if uses_config_port(framework@) {
            contents_port(contents.deep_view(), "port"@)
        } else {
            None::<u16>
        }),
{
    if !(strutil::str_eq(framework, "astro") || strutil::str_eq(framework, "nextjs")
        || strutil::str_eq(framework, "vite")) {
        return None;
    }
    let ghost cv = contents.deep_view();
    let mut i: usize = 0;
    assert(cv.subrange(0, cv.len() as int) =~= cv);
    while i < contents.len()
        invariant
            i <= cv.len(),
            cv == contents.deep_view(),
            cv.len() == contents@.len(),
            uses_config_port(framework@),
            contents_port(cv, "port"@) == contents_port(
                cv.subrange(i as int, cv.len() as int),
                "port"@,
            ),
        decreases cv.len() - i,
    {
        let ghost rest = cv.subrange(i as int, cv.len() as int);
        assert(rest[0] == cv[i as int]);
        assert(rest.drop_first() =~= cv.subrange(i + 1, cv.len() as int));
        assert(contents[i as int]@ == cv[i as int]);
        if let Some(p) = extract_port_from_config_file(contents[i].as_str(), "port") {
            return Some(p);
        }
        i += 1;
    }
    assert(cv.subrange(cv.len() as int, cv.len() as int) =~= Seq::<Seq<char>>::empty());
    None
}

proof fn lemma_framework_names_distinct()
    ensures
        "astro"@ != "nextjs"@,
        "astro"@ != "vite"@,
        "nextjs"@ != "vite"@,
{
    reveal_strlit("astro");
    reveal_strlit("nextjs");
    reveal_strlit("vite");
    assert(("astro")@.len() == 5);
    assert(("nextjs")@.len() == 6);
    assert(("vite")@.len() == 4);
}

/// The configuration file names consulted for a framework, in
/// preference order.
pub fn config_file_names(framework: &str) -> (r: Vec<String>)
    ensures
        framework@ == "astro"@ ==> r.deep_view() =~= seq![
            "astro.config.mjs"@,
            "astro.config.js"@,
            "astro.config.ts"@,
        ],
        framework@ == "nextjs"@ ==> r.deep_view() =~= seq![
            "next.config.js"@,
            "next.config.mjs"@,
            "next.config.ts"@,
        ],
        framework@ == "vite"@ ==> r.deep_view() =~= seq![
            "vite.config.js"@,
            "vite.config.ts"@,
            "vite.config.mjs"@,
        ],
        !uses_config_port(framework@) ==> r.deep_view() =~= Seq::<Seq<char>>::empty(),
{
    proof {
        lemma_framework_names_distinct();
    }
    let mut r: Vec<String> = Vec::new();
    if strutil::str_eq(framework, "astro") {
        r.push(String::from_str("astro.config.mjs"));
        r.push(String::from_str("astro.config.js"));
        r.push(String::from_str("astro.config.ts"));
        proof {
            assert(r.deep_view().len() == 3);
            assert(r.deep_view()[0] == "astro.config.mjs"@);
            assert(r.deep_view()[1] == "astro.config.js"@);
            assert(r.deep_view()[2] == "astro.config.ts"@);
        }
    } else if strutil::str_eq(framework, "nextjs") {
        r.push(String::from_str("next.config.js"));
        r.push(String::from_str("next.config.mjs"));
        r.push(String::from_str("next.config.ts"));
        proof {
            assert(r.deep_view().len() == 3);
            assert(r.deep_view()[0] == "next.config.js"@);
            assert(r.deep_view()[1] == "next.config.mjs"@);
            assert(r.deep_view()[2] == "next.config.ts"@);
        }
    } else if strutil::str_eq(framework, "vite") {
        r.push(String::from_str("vite.config.js"));
        r.push(String::from_str("vite.config.ts"));
        r.push(String::from_str("vite.config.mjs"));
        proof {
            assert(r.deep_view().len() == 3);
            assert(r.deep_view()[0] == "vite.config.js"@);
            assert(r.deep_view()[1] == "vite.config.ts"@);
            assert(r.deep_view()[2] == "vite.config.mjs"@);
        }
    }
    r
}

/// Reads the `scripts.dev` (then `scripts.start`) entry of a
/// `package.json` document and scans it for a port. Parsing is done by
/// the JSON library, of which nothing is assumed; a port is only ever
/// produced by `extract_port_from_string` on a script it returned, so
/// whatever comes back is positive.
pub fn detect_port_from_package_json(content: &str) -> (r: Option<u16>)
    ensures
        r matches Some(p) ==> p > 0,
{
    let v = match json::json_parse(content) {
        None => {
            return None;
        },
        Some(v) => v,
    };
    let scripts = match json::json_get(&v, "scripts") {
        None => {
            return None;
        },
        Some(s) => s,
    };
    if let Some(dev) = json::json_get(scripts, "dev") {
        if let Some(ds) = json::json_as_str(dev) {
            if let Some(p) = extract_port_from_string(ds.as_str()) {
                proof {
                    lemma_extract_port_positive(ds@);
                }
                return Some(p);
            }
        }
    }
    if let Some(st) = json::json_get(scripts, "start") {
        if let Some(ss) = json::json_as_str(st) {
            if let Some(p) = extract_port_from_string(ss.as_str()) {
                proof {
                    lemma_extract_port_positive(ss@);
                }
                return Some(p);
            }
        }
    }
    None
}

/// Detects the port a project will serve on: framework configuration
/// files first, then the `package.json` scripts, then the framework
/// default. Always yields a port, since every framework has a default,
/// and never port 0.
pub fn detect_port(framework: &str, config_contents: &Vec<String>, package_json: Option<&str>) -> (r:
    Option<u16>)
    ensures
        r is Some,
        r matches Some(p) ==> p > 0,
        (if uses_config_port(framework@) {
            contents_port(config_contents.deep_view(), "port"@)
        } else {
            None::<u16>
        }) matches Some(p) ==> r == Some(p),
        (!uses_config_port(framework@) || contents_port(
            config_contents.deep_view(),
            "port"@,
        ) is None) && package_json is None ==> r == default_port_of(framework@),
{
    if let Some(p) = detect_port_from_config(framework, config_contents) {
        proof {
            lemma_contents_port_positive(config_contents.deep_view(), "port"@);
        }
        return Some(p);
    }
    if let Some(content) = package_json {
        if let Some(p) = detect_port_from_package_json(content) {
            return Some(p);
        }
    }
    get_default_port(framework)
}

} // verus!
