use runstack_lib::detection::detect_framework;
use runstack_lib::detection::detect_package_manager;
use runstack_lib::detection::is_size_scan_excluded;
use runstack_lib::detection::FrameworkMarkers;
use runstack_lib::detection::LockFiles;
use runstack_lib::errors::AppError;
use runstack_lib::project_info::enrich_project_info;
use runstack_lib::project_info::get_package_json_scripts;
use runstack_lib::project_info::parse_runtime_version;
use runstack_lib::project_info::Project;
use runstack_lib::project_info::ProjectExtras;
use runstack_lib::project_info::VersionCache;
use runstack_lib::strutil::parse_u16;
use runstack_lib::strutil::parse_u32;
use runstack_lib::strutil::u32_to_string;

fn no_markers() -> FrameworkMarkers {
    FrameworkMarkers {
        has_astro_config: false,
        has_next_config: false,
        has_vite_config: false,
        has_src_dir: false,
        has_public_dir: false,
        package_json: None,
        has_svelte_config: false,
        has_nuxt_config: false,
    }
}

#[test]
fn test_detect_package_manager_priority() {
    let all = LockFiles { pnpm_lock: true, yarn_lock: true, package_lock: true, bun_lockb: true };
    assert_eq!(detect_package_manager(&all), "pnpm");
    let yarn = LockFiles { pnpm_lock: false, yarn_lock: true, package_lock: true, bun_lockb: false };
    assert_eq!(detect_package_manager(&yarn), "yarn");
    let bun = LockFiles { pnpm_lock: false, yarn_lock: false, package_lock: false, bun_lockb: true };
    assert_eq!(detect_package_manager(&bun), "bun");
    let none = LockFiles { pnpm_lock: false, yarn_lock: false, package_lock: false, bun_lockb: false };
    assert_eq!(detect_package_manager(&none), "npm");
}

#[test]
fn test_detect_framework_priority() {
    let mut m = no_markers();
    assert_eq!(detect_framework(&m), "node");
    m.has_nuxt_config = true;
    assert_eq!(detect_framework(&m), "nuxt");
    m.has_svelte_config = true;
    assert_eq!(detect_framework(&m), "sveltekit");
    m.has_vite_config = true;
    assert_eq!(detect_framework(&m), "vite");
    m.has_next_config = true;
    assert_eq!(detect_framework(&m), "nextjs");
    m.has_astro_config = true;
    assert_eq!(detect_framework(&m), "astro");
}

#[test]
fn test_detect_framework_react_needs_marker_and_scripts() {
    let mut m = no_markers();
    m.has_src_dir = true;
    m.has_public_dir = true;
    m.package_json = Some("{\"dependencies\":{\"react-scripts\":\"5.0.0\"}}".to_string());
    assert_eq!(detect_framework(&m), "react");
    m.package_json = Some("{\"dependencies\":{\"react\":\"19\"}}".to_string());
    assert_eq!(detect_framework(&m), "node");
    m.package_json = None;
    assert_eq!(detect_framework(&m), "node");
}

#[test]
fn test_is_size_scan_excluded() {
    assert!(is_size_scan_excluded("node_modules"));
    assert!(is_size_scan_excluded(".git"));
    assert!(is_size_scan_excluded("dist"));
    assert!(is_size_scan_excluded("build"));
    assert!(!is_size_scan_excluded("src"));
}

fn sample_project(runtime: &str) -> Project {
    Project {
        name: "demo".to_string(),
        path: "/srv/demo".to_string(),
        runtime: runtime.to_string(),
        package_manager: Some("npm".to_string()),
        port: Some(3000),
        framework: Some("vite".to_string()),
        runtime_version: None,
        scripts: None,
        size: None,
        modified: None,
    }
}

#[test]
fn test_enrich_project_info_node_gets_scripts() {
    let extras = ProjectExtras {
        runtime_version: Some("v20.1.0".to_string()),
        scripts: Some(vec![("dev".to_string(), "vite".to_string())]),
        size: Some(1024),
        modified: Some(1700000000),
    };
    let p = enrich_project_info(sample_project("Node.js"), extras);
    assert_eq!(p.name, "demo");
    assert_eq!(p.runtime_version.as_deref(), Some("v20.1.0"));
    assert_eq!(p.scripts.unwrap().len(), 1);
    assert_eq!(p.size, Some(1024));
    assert_eq!(p.modified, Some(1700000000));
}

#[test]
fn test_enrich_project_info_deno_keeps_scripts_unset() {
    let extras = ProjectExtras {
        runtime_version: Some("1.40.0".to_string()),
        scripts: Some(vec![("dev".to_string(), "vite".to_string())]),
        size: None,
        modified: None,
    };
    let p = enrich_project_info(sample_project("Deno"), extras);
    assert!(p.scripts.is_none(), "scripts only apply to Node.js and Bun projects");
}

#[test]
fn test_parse_runtime_version_per_runtime() {
    assert_eq!(
        parse_runtime_version("Node.js", "v20.1.0\n").as_deref(),
        Some("v20.1.0")
    );
    assert_eq!(parse_runtime_version("Bun", " 1.1.0 \n").as_deref(), Some("1.1.0"));
    assert_eq!(
        parse_runtime_version("Deno", "deno 1.40.0 (release)\nv8 12.0\n").as_deref(),
        Some("1.40.0")
    );
    assert_eq!(parse_runtime_version("Deno", "deno\n"), None);
    assert_eq!(parse_runtime_version("Python", "3.12"), None);
}

#[test]
fn test_get_package_json_scripts_string_values_only() {
    let content = "{\"scripts\":{\"dev\":\"vite\",\"count\":3,\"build\":\"vite build\"}}";
    let scripts = get_package_json_scripts(content).unwrap();
    assert_eq!(scripts.len(), 2);
    assert!(scripts.iter().any(|(k, v)| k == "dev" && v == "vite"));
    assert!(scripts.iter().any(|(k, v)| k == "build" && v == "vite build"));
}

#[test]
fn test_get_package_json_scripts_absent() {
    assert!(get_package_json_scripts("{}").is_none());
    assert!(get_package_json_scripts("nonsense").is_none());
    assert!(get_package_json_scripts("{\"scripts\": 7}").is_none());
}

#[test]
fn test_app_error_message_labels() {
    assert_eq!(
        AppError::NotFound("missing".to_string()).message(),
        "Not found: missing"
    );
    assert_eq!(
        AppError::CommandError("bad".to_string()).message(),
        "Command error: bad"
    );
    assert_eq!(AppError::IoError("io".to_string()).message(), "IO error: io");
    assert_eq!(
        AppError::ProcessError("p".to_string()).message(),
        "Process error: p"
    );
    assert_eq!(AppError::ParseError("x".to_string()).message(), "Parse error: x");
    assert_eq!(AppError::Utf8Error("u".to_string()).message(), "UTF-8 error: u");
}

#[test]
fn test_parse_helpers_exact_values() {
    assert_eq!(parse_u16("5173"), Some(5173));
    assert_eq!(parse_u16("+80"), Some(80));
    assert_eq!(parse_u16("65535"), Some(65535));
    assert_eq!(parse_u16("65536"), None);
    assert_eq!(parse_u16("0001"), Some(1));
    assert_eq!(parse_u16(""), None);
    assert_eq!(parse_u16("+"), None);
    assert_eq!(parse_u16("12a"), None);
    assert_eq!(parse_u32("4294967295"), Some(4294967295));
    assert_eq!(parse_u32("4294967296"), None);
    assert_eq!(u32_to_string(0), "0");
    assert_eq!(u32_to_string(10000001), "10000001");
}

#[test]
fn test_version_cache_put_get() {
    let mut cache = VersionCache::new();
    assert!(cache.get("Node.js").is_none());
    cache.put("Node.js", "v20.1.0");
    cache.put("Bun", "1.1.0");
    assert_eq!(cache.get("Node.js").as_deref(), Some("v20.1.0"));
    assert_eq!(cache.get("Bun").as_deref(), Some("1.1.0"));
    assert!(cache.get("Deno").is_none());
}

#[test]
fn test_version_cache_overwrite_is_idempotent() {
    let mut cache = VersionCache::new();
    cache.put("Node.js", "v20.1.0");
    cache.put("Node.js", "v20.2.0");
    assert_eq!(cache.get("Node.js").as_deref(), Some("v20.2.0"));
}
