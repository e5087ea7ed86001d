use runstack_lib::port::detect_port;
use runstack_lib::port::detect_port_deno;
use runstack_lib::port::detect_port_from_config;
use runstack_lib::port::detect_port_from_package_json;
use runstack_lib::port::config_file_names;
use runstack_lib::port::extract_port_from_config_file;
use runstack_lib::port::extract_port_from_string;
use runstack_lib::port::get_default_port;

#[test]
fn test_get_default_port_per_framework() {
    assert_eq!(get_default_port("astro"), Some(4321));
    assert_eq!(get_default_port("nextjs"), Some(3000));
    assert_eq!(get_default_port("vite"), Some(5173));
    assert_eq!(get_default_port("react"), Some(3000));
    assert_eq!(get_default_port("sveltekit"), Some(5173));
    assert_eq!(get_default_port("nuxt"), Some(3000));
    assert_eq!(get_default_port("unknown"), Some(3000));
}

#[test]
fn test_detect_port_deno_default() {
    assert_eq!(detect_port_deno(), Some(8000));
}

#[test]
fn test_extract_port_from_string_patterns() {
    assert_eq!(extract_port_from_string("vite --port 5173"), Some(5173));
    assert_eq!(extract_port_from_string("next dev -p 3001"), Some(3001));
    assert_eq!(extract_port_from_string("PORT=4000 node server.js"), Some(4000));
    assert_eq!(extract_port_from_string("astro dev --port=4321"), Some(4321));
    assert_eq!(extract_port_from_string("serve localhost:8080"), Some(8080));
    assert_eq!(extract_port_from_string("npm run build"), None);
    assert_eq!(extract_port_from_string(""), None);
}

#[test]
fn test_extract_port_from_string_rejects_bad_numbers() {
    // A value that does not fit a port, or a URL-ish token with too many
    // digits, is skipped
    assert_eq!(extract_port_from_string("--port 99999"), None);
    assert_eq!(extract_port_from_string("see http://example.com:123456"), None);
    assert_eq!(extract_port_from_string("host:0"), None);
}

#[test]
fn test_extract_port_from_string_never_port_zero() {
    // Port 0 means "ephemeral/unassigned" and is never a valid
    // discovery result, under any pattern
    assert_eq!(extract_port_from_string("serve -p 0"), None);
    assert_eq!(extract_port_from_string("serve --port 0"), None);
    assert_eq!(extract_port_from_string("PORT=0 node server.js"), None);
    assert_eq!(extract_port_from_string("serve --port=0"), None);
}

#[test]
fn test_extract_port_from_config_file_variants() {
    assert_eq!(extract_port_from_config_file("  port: 4321,", "port"), Some(4321));
    assert_eq!(extract_port_from_config_file("\"port\": 3000", "port"), Some(3000));
    // Only the text after the first colon is considered, so a port
    // buried behind `server: {` on the same line is not found
    assert_eq!(
        extract_port_from_config_file("server: { port: 5173 }", "port"),
        None
    );
    assert_eq!(
        extract_port_from_config_file("server: {
  port: 5173,
}
", "port"),
        Some(5173)
    );
    assert_eq!(extract_port_from_config_file("export default {}", "port"), None);
    assert_eq!(extract_port_from_config_file("port: 'dev'", "port"), None);
}

#[test]
fn test_extract_port_from_config_file_first_match_wins() {
    let content = "// config\nport: nonsense\nport: 4322,\nport: 9999\n";
    assert_eq!(extract_port_from_config_file(content, "port"), Some(4322));
}

#[test]
fn test_config_file_names_per_framework() {
    let astro = config_file_names("astro");
    assert_eq!(
        astro,
        vec!["astro.config.mjs", "astro.config.js", "astro.config.ts"]
    );
    let next = config_file_names("nextjs");
    assert_eq!(next, vec!["next.config.js", "next.config.mjs", "next.config.ts"]);
    let vite = config_file_names("vite");
    assert_eq!(vite, vec!["vite.config.js", "vite.config.ts", "vite.config.mjs"]);
    assert!(config_file_names("node").is_empty());
}

#[test]
fn test_detect_port_from_config_only_known_frameworks() {
    let contents = vec!["port: 4444".to_string()];
    assert_eq!(detect_port_from_config("astro", &contents), Some(4444));
    assert_eq!(detect_port_from_config("node", &contents), None);
}

#[test]
fn test_detect_port_from_package_json_dev_script() {
    let content = "{\"scripts\":{\"dev\":\"vite --port 5173\"}}";
    assert_eq!(detect_port_from_package_json(content), Some(5173));
}

#[test]
fn test_detect_port_from_package_json_start_fallback() {
    let content = "{\"scripts\":{\"dev\":\"vite\",\"start\":\"serve -p 3002\"}}";
    assert_eq!(detect_port_from_package_json(content), Some(3002));
}

#[test]
fn test_detect_port_from_package_json_absent() {
    assert_eq!(detect_port_from_package_json("{}"), None);
    assert_eq!(detect_port_from_package_json("not json"), None);
    assert_eq!(detect_port_from_package_json("{\"scripts\":[1,2]}"), None);
}

#[test]
fn test_detect_port_tiers() {
    // Configuration beats scripts beats defaults
    let cfg = vec!["port: 4545".to_string()];
    let pj = "{\"scripts\":{\"dev\":\"vite --port 5173\"}}";
    assert_eq!(detect_port("astro", &cfg, Some(pj)), Some(4545));

    let empty_cfg: Vec<String> = Vec::new();
    assert_eq!(detect_port("astro", &empty_cfg, Some(pj)), Some(5173));
    assert_eq!(detect_port("astro", &empty_cfg, None), Some(4321));
    assert_eq!(detect_port("node", &empty_cfg, None), Some(3000));

    // A script naming port 0 cannot decide the port; the default wins
    let zero_pj = "{\"scripts\":{\"dev\":\"serve -p 0\"}}";
    assert_eq!(detect_port("node", &empty_cfg, Some(zero_pj)), Some(3000));
}
