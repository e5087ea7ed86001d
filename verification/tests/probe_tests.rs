use runstack_lib::probe::detect_port_by_pid;
use runstack_lib::probe::parse_lsof_listen_line;
use runstack_lib::probe::parse_lsof_output;
use runstack_lib::probe::parse_pid_list;
use runstack_lib::probe::parse_proc_table;
use runstack_lib::probe::pid_within_tree;
use runstack_lib::probe::well_known_ports;
use runstack_lib::probe::PortProbe;
use runstack_lib::probe::PortScan;
use runstack_lib::tree::descendants;
use runstack_lib::tree::ProcEntry;

const HEADER: &str = "COMMAND PID USER FD TYPE DEVICE SIZE/OFF NODE NAME";

fn table(rows: &[(u32, u32)]) -> Vec<ProcEntry> {
    rows.iter().map(|&(pid, ppid)| ProcEntry::new(pid, ppid)).collect()
}

fn empty_scan() -> PortScan {
    PortScan {
        own_listing: String::new(),
        descendant_listings: Vec::new(),
        port_probes: Vec::new(),
    }
}

#[test]
fn test_parse_lsof_listen_line_star_port() {
    let line = "node 12345 user 30u IPv4 0x1a2b 0t0 TCP *:4321 (LISTEN)";
    assert_eq!(parse_lsof_listen_line(line), Some(4321));
}

#[test]
fn test_parse_lsof_listen_line_localhost_port() {
    let line = "deno 7 u 5u IPv6 0xff 0t0 TCP localhost:8000 (LISTEN)";
    assert_eq!(parse_lsof_listen_line(line), Some(8000));
}

#[test]
fn test_parse_lsof_listen_line_malformed() {
    // Too few columns, no colon, unparsable and zero ports are all skipped
    assert_eq!(parse_lsof_listen_line("short line"), None);
    assert_eq!(parse_lsof_listen_line("a b c d e f g h name (LISTEN)"), None);
    assert_eq!(parse_lsof_listen_line("a b c d e f g h *:zzz (LISTEN)"), None);
    assert_eq!(parse_lsof_listen_line("a b c d e f g h *:0 (LISTEN)"), None);
    assert_eq!(parse_lsof_listen_line(""), None);
}

#[test]
fn test_parse_lsof_output_skips_header() {
    let text = format!(
        "{}\nnode 12345 user 30u IPv4 0x1a2b 0t0 TCP *:5173 (LISTEN)\n",
        HEADER
    );
    assert_eq!(parse_lsof_output(&text), Some(5173));
    assert_eq!(parse_lsof_output(HEADER), None);
    assert_eq!(parse_lsof_output(""), None);
}

#[test]
fn test_parse_pid_list_skips_garbage() {
    assert_eq!(parse_pid_list("123\n  456 \nnope\n789"), vec![123, 456, 789]);
    assert_eq!(parse_pid_list(""), Vec::<u32>::new());
}

#[test]
fn test_parse_proc_table_skips_header() {
    let t = parse_proc_table("  PID  PPID\n    1     0\n  100     1\n bad line\n");
    assert_eq!(t.len(), 2);
    assert_eq!((t[0].pid, t[0].ppid), (1, 0));
    assert_eq!((t[1].pid, t[1].ppid), (100, 1));
}

#[test]
fn test_well_known_ports_cover_frameworks() {
    let ports = well_known_ports();
    assert_eq!(ports.len(), 20);
    assert!(ports.contains(&4321));
    assert!(ports.contains(&3000));
    assert!(ports.contains(&5173));
    assert!(ports.contains(&8000));
}

#[test]
fn test_pid_within_tree_by_parent_chain() {
    // 2000 listens; its parent chain reaches the probed root 1000
    let t = table(&[(1001, 1000), (2000, 1001)]);
    let desc = vec![1000, 1001];
    assert!(pid_within_tree(&t, 2000, 1000, &desc, 5));
    assert!(pid_within_tree(&t, 1001, 1000, &desc, 5));
    assert!(!pid_within_tree(&t, 9999, 1000, &desc, 5));
}

#[test]
fn test_detect_port_by_pid_nonexistent_pid() {
    // A PID with no table entries, no listings, and no probes has no
    // port; this is not an error
    let t = table(&[]);
    let desc = descendants(&t, 999999, 3);
    let result = detect_port_by_pid(999999, &t, &desc, &empty_scan());
    assert!(result.is_none(), "Nonexistent process should not have a port");
}

#[test]
fn test_detect_port_no_listener_returns_none() {
    // A root with sockets listed but none listening, and a descendant
    // with none either, yields None rather than an error
    let t = table(&[(1001, 1000)]);
    let desc = descendants(&t, 1000, 3);
    let scan = PortScan {
        own_listing: HEADER.to_string(),
        descendant_listings: vec![HEADER.to_string()],
        port_probes: vec![PortProbe { port: 3000, listeners: String::new() }],
    };
    assert_eq!(detect_port_by_pid(1000, &t, &desc, &scan), None);
}

#[test]
fn test_detect_port_direct_listener() {
    let t = table(&[]);
    let desc = descendants(&t, 42, 3);
    let scan = PortScan {
        own_listing: format!(
            "{}\nvite 42 user 30u IPv4 0x1 0t0 TCP *:5173 (LISTEN)",
            HEADER
        ),
        descendant_listings: Vec::new(),
        port_probes: Vec::new(),
    };
    assert_eq!(detect_port_by_pid(42, &t, &desc, &scan), Some(5173));
}

#[test]
fn test_detect_port_descendant_listener() {
    let t = table(&[(43, 42)]);
    let desc = descendants(&t, 42, 3);
    let scan = PortScan {
        own_listing: HEADER.to_string(),
        descendant_listings: vec![format!(
            "{}\nnode 43 user 30u IPv4 0x1 0t0 TCP 127.0.0.1:4321 (LISTEN)",
            HEADER
        )],
        port_probes: Vec::new(),
    };
    assert_eq!(detect_port_by_pid(42, &t, &desc, &scan), Some(4321));
}

#[test]
fn test_detect_port_well_known_ownership_check() {
    // The well-known-port tier only accepts a port whose listener is
    // inside the probed tree; a coincidental listener is rejected
    let t = table(&[(43, 42), (500, 499)]);
    let desc = descendants(&t, 42, 3);
    let owned = PortScan {
        own_listing: HEADER.to_string(),
        descendant_listings: vec![HEADER.to_string()],
        port_probes: vec![PortProbe { port: 3000, listeners: "43\n".to_string() }],
    };
    assert_eq!(detect_port_by_pid(42, &t, &desc, &owned), Some(3000));

    let coincidental = PortScan {
        own_listing: HEADER.to_string(),
        descendant_listings: vec![HEADER.to_string()],
        port_probes: vec![PortProbe { port: 3000, listeners: "500\n".to_string() }],
    };
    assert_eq!(detect_port_by_pid(42, &t, &desc, &coincidental), None);
}
