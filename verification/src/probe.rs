//! Port probing over snapshots of OS listings: parsing socket-listener
//! output, parsing process tables, and the tiered search for the TCP
//! port a process tree is serving on.
use crate::strutil;
use crate::tree::ProcEntry;
use crate::tree::ppid_of;
use vstd::prelude::*;

verus! {

/// How many parent-chain hops the ownership cross-check walks.
pub const PROBE_CHAIN_HOPS: usize = 5;

/// How many levels of descendants the prober searches.
pub const PROBE_TREE_DEPTH: usize = 3;

/// The port named by one socket-listener line, if any: at least nine
/// whitespace-separated columns, a name column holding `addr:port`, and
/// the text after the last `:` (up to a space) parsing as a positive
/// 16-bit number.
pub open spec fn lsof_line_port(line: Seq<char>) -> Option<u16> {
    let toks = strutil::tokens_of(line);
    if toks.len() < 9 {
        None
    } else {
        let name = toks[8];
        if !name.contains(':') {
            None
        } else {
            let seg = strutil::before_first_char(strutil::after_last_char(name, ':'), ' ');
            match strutil::parse_u16_spec(seg) {
                Some(p) => if p > 0 {
                    Some(p)
                } else {
                    None
                },
                None => None,
            }
        }
    }
}

/// Extracts a listening port from one line of socket-listener output.
/// Malformed lines yield `None` rather than failing.
pub fn parse_lsof_listen_line(line: &str) -> (r: Option<u16>)
    ensures
        r == lsof_line_port(line@),
{
    let toks = strutil::split_ws(line);
    if toks.len() < 9 {
        return None;
    }
    let name: &str = toks[8].as_str();
    assert(name@ == strutil::tokens_of(line@)[8]);
    if !strutil::contains_char(name, ':') {
        return None;
    }
    let tail = strutil::after_last(name, ':');
    let seg = strutil::before_first(tail, ' ');
    match strutil::parse_u16(seg) {
        Some(p) => if p > 0 {
            Some(p)
        } else {
            None
        },
        None => None,
    }
}

/// The first port named by any of `lines`, in order.
pub open spec fn lines_first_port(lines: Seq<Seq<char>>) -> Option<u16>
    decreases lines.len(),
{
    if lines.len() == 0 {
        None
    } else {
        match lsof_line_port(lines[0]) {
            Some(p) => Some(p),
            None => lines_first_port(lines.drop_first()),
        }
    }
}

/// The port named by a whole socket-listener listing: the first line is
/// a header and is skipped; the remaining lines are scanned in order.
pub open spec fn listing_port(text: Seq<char>) -> Option<u16> {
    if strutil::lines_spec(text).len() == 0 {
        None
    } else {
        lines_first_port(strutil::lines_spec(text).drop_first())
    }
}

/// Scans a socket-listener listing (header line first) for the first
/// listening port.
pub fn parse_lsof_output(text: &str) -> (r: Option<u16>)
    ensures
        r == listing_port(text@),
{
    let lines = strutil::split_lines(text);
    let ghost dv = lines.deep_view();
    if lines.len() == 0 {
        return None;
    }
    let mut i: usize = 1;
    assert(dv.subrange(1, dv.len() as int) =~= dv.drop_first());
    while i < lines.len()
        invariant
            1 <= i <= dv.len(),
            dv == lines.deep_view(),
            dv.len() == lines@.len(),
            listing_port(text@) == lines_first_port(dv.subrange(i as int, dv.len() as int)),
        decreases dv.len() - i,
    {
        let ghost rest = dv.subrange(i as int, dv.len() as int);
        assert(rest[0] == dv[i as int]);
        assert(rest.drop_first() =~= dv.subrange(i + 1, dv.len() as int));
        assert(lines[i as int]@ == dv[i as int]);
        if let Some(p) = parse_lsof_listen_line(lines[i].as_str()) {
            return Some(p);
        }
        i += 1;
    }
    assert(dv.subrange(dv.len() as int, dv.len() as int) =~= Seq::<Seq<char>>::empty());
    None
}

/// The PIDs named by a listing, one per line, each line trimmed; lines
/// that do not parse are skipped.
pub open spec fn pid_lines_spec(lines: Seq<Seq<char>>) -> Seq<u32>
    decreases lines.len(),
{
    if lines.len() == 0 {
        Seq::empty()
    } else {
        (match strutil::parse_u32_spec(strutil::trim_spaces_spec(lines[0])) {
            Some(v) => seq![v],
            None => Seq::empty(),
        }) + pid_lines_spec(lines.drop_first())
    }
}

pub open spec fn pids_in_text(text: Seq<char>) -> Seq<u32> {
    pid_lines_spec(strutil::lines_spec(text))
}

/// Parses a PID-per-line listing, skipping lines that are not numbers.
pub fn parse_pid_list(text: &str) -> (r: Vec<u32>)
    ensures
        r@ == pids_in_text(text@),
{
    let lines = strutil::split_lines(text);
    let ghost dv = lines.deep_view();
    let mut r: Vec<u32> = Vec::new();
    let mut i: usize = 0;
    assert(dv.subrange(0, dv.len() as int) =~= dv);
    while i < lines.len()
        invariant
            i <= dv.len(),
            dv == lines.deep_view(),
            dv.len() == lines@.len(),
            pids_in_text(text@) == r@ + pid_lines_spec(dv.subrange(i as int, dv.len() as int)),
        decreases dv.len() - i,
    {
        let ghost rest = dv.subrange(i as int, dv.len() as int);
        assert(rest[0] == dv[i as int]);
        assert(rest.drop_first() =~= dv.subrange(i + 1, dv.len() as int));
        assert(lines[i as int]@ == dv[i as int]);
        let ghost prev = r@;
        let t = strutil::trim_spaces(lines[i].as_str());
        if let Some(v) = strutil::parse_u32(t) {
            r.push(v);
            assert(r@ =~= prev + seq![v]);
        } else {
            assert(r@ =~= prev + Seq::<u32>::empty());
        }
        proof {
            assert(prev + pid_lines_spec(rest) =~= r@ + pid_lines_spec(rest.drop_first()));
        }
        i += 1;
    }
    assert(dv.subrange(dv.len() as int, dv.len() as int) =~= Seq::<Seq<char>>::empty());
    assert(r@ + Seq::<u32>::empty() =~= r@);
    r
}

/// The process-table entry read from one line of a `pid ppid` listing:
/// the first two columns as numbers. Headers and malformed lines yield
/// `None`.
pub open spec fn proc_line_entry(line: Seq<char>) -> Option<ProcEntry> {
    let toks = strutil::tokens_of(line);
    if toks.len() < 2 {
        None
    } else {
        match (strutil::parse_u32_spec(toks[0]), strutil::parse_u32_spec(toks[1])) {
            (Some(a), Some(b)) => Some(ProcEntry { pid: a, ppid: b }),
            _ => None,
        }
    }
}

pub open spec fn proc_lines_spec(lines: Seq<Seq<char>>) -> Seq<ProcEntry>
    decreases lines.len(),
{
    if lines.len() == 0 {
        Seq::empty()
    } else {
        (match proc_line_entry(lines[0]) {
            Some(e) => seq![e],
            None => Seq::empty(),
        }) + proc_lines_spec(lines.drop_first())
    }
}

pub open spec fn proc_table_of(text: Seq<char>) -> Seq<ProcEntry> {
    proc_lines_spec(strutil::lines_spec(text))
}

/// Parses a whole-system `pid ppid` listing into a process table,
/// skipping the header and any malformed lines.
pub fn parse_proc_table(text: &str) -> (r: Vec<ProcEntry>)
    ensures
        r@ == proc_table_of(text@),
{
    let lines = strutil::split_lines(text);
    let ghost dv = lines.deep_view();
    let mut r: Vec<ProcEntry> = Vec::new();
    let mut i: usize = 0;
    assert(dv.subrange(0, dv.len() as int) =~= dv);
    while i < lines.len()
        invariant
            i <= dv.len(),
            dv == lines.deep_view(),
            dv.len() == lines@.len(),
            proc_table_of(text@) == r@ + proc_lines_spec(dv.subrange(i as int, dv.len() as int)),
        decreases dv.len() - i,
    {
        let ghost rest = dv.subrange(i as int, dv.len() as int);
        assert(rest[0] == dv[i as int]);
        assert(rest.drop_first() =~= dv.subrange(i + 1, dv.len() as int));
        assert(lines[i as int]@ == dv[i as int]);
        let ghost prev = r@;
        let toks = strutil::split_ws(lines[i].as_str());
        if toks.len() >= 2 {
            let a = strutil::parse_u32(toks[0].as_str());
            let b = strutil::parse_u32(toks[1].as_str());
            assert(toks[0]@ == strutil::tokens_of(dv[i as int])[0]);
            assert(toks[1]@ == strutil::tokens_of(dv[i as int])[1]);
            match (a, b) {
                (Some(pid), Some(ppid)) => {
                    r.push(ProcEntry { pid, ppid });
                    assert(r@ =~= prev + seq![ProcEntry { pid, ppid }]);
                },
                _ => {
                    assert(r@ =~= prev + Seq::<ProcEntry>::empty());
                },
            }
        } else {
            assert(r@ =~= prev + Seq::<ProcEntry>::empty());
        }
        proof {
            assert(prev + proc_lines_spec(rest) =~= r@ + proc_lines_spec(rest.drop_first()));
        }
        i += 1;
    }
    assert(dv.subrange(dv.len() as int, dv.len() as int) =~= Seq::<Seq<char>>::empty());
    assert(r@ + Seq::<ProcEntry>::empty() =~= r@);
    r
}

/// The fixed list of well-known per-framework default ports tried as a
/// last resort.
pub fn well_known_ports() -> (r: Vec<u16>)
    ensures
        r@ =~= seq![
            4321u16,
            4322u16,
            4323u16,
            4324u16,
            4325u16,
            3000u16,
            3001u16,
            3002u16,
            3003u16,
            3004u16,
            5173u16,
            5174u16,
            5175u16,
            5176u16,
            5177u16,
            8000u16,
            8001u16,
            8002u16,
            8003u16,
            8004u16,
        ],
{
    let r: Vec<u16> = vec![
        4321, 4322, 4323, 4324, 4325, 3000, 3001, 3002, 3003, 3004, 5173, 5174, 5175, 5176, 5177,
        8000, 8001, 8002, 8003, 8004,
    ];
    r
}

/// Walking recorded parent links upward from `from` for at most `hops`
/// steps reaches the root or a known descendant.
pub open spec fn chain_reaches(
    table: Seq<ProcEntry>,
    from: u32,
    root: u32,
    desc: Seq<u32>,
    hops: nat,
) -> bool
    decreases hops,
{
    if hops == 0 {
        false
    } else {
        match ppid_of(table, from) {
            None => false,
            Some(pp) => pp == root || desc.contains(pp) || chain_reaches(
                table,
                pp,
                root,
                desc,
                (hops - 1) as nat,
            ),
        }
    }
}

/// A listening PID belongs to the probed tree: it is the root itself, a
/// known descendant, or its parent chain reaches one within `hops`.
pub open spec fn owned_by_tree(
    table: Seq<ProcEntry>,
    lp: u32,
    root: u32,
    desc: Seq<u32>,
    hops: nat,
) -> bool {
    lp == root || desc.contains(lp) || chain_reaches(table, lp, root, desc, hops)
}

/// Decides whether a listening PID belongs to the probed tree, walking
/// at most `max_hops` parent links.
pub fn pid_within_tree(
    table: &Vec<ProcEntry>,
    lp: u32,
    root: u32,
    desc: &Vec<u32>,
    max_hops: usize,
) -> (r: bool)
    ensures
        r == owned_by_tree(table@, lp, root, desc@, max_hops as nat),
{
    if lp == root || strutil::vec_contains_u32(desc, lp) {
        return true;
    }
    let mut current: u32 = lp;
    let mut k: usize = 0;
    while k < max_hops
        invariant
            k <= max_hops,
            lp != root,
            !desc@.contains(lp),
            chain_reaches(table@, lp, root, desc@, max_hops as nat) == chain_reaches(
                table@,
                current,
                root,
                desc@,
                (max_hops - k) as nat,
            ),
        decreases max_hops - k,
    {
        match crate::tree::lookup_ppid(table, current) {
            None => {
                return false;
            },
            Some(pp) => {
                if pp == root || strutil::vec_contains_u32(desc, pp) {
                    return true;
                }
                current = pp;
            },
        }
        k += 1;
    }
    false
}

/// The last-resort probe of one well-known port: the port number and the
/// listener listing (one PID per line) observed for it.
pub struct PortProbe {
    pub port: u16,
    pub listeners: String,
}

/// Everything the prober observed about one root: the root's own socket
/// listing, one listing per discovered descendant, and the well-known
/// port probes.
pub struct PortScan {
    pub own_listing: String,
    pub descendant_listings: Vec<String>,
    pub port_probes: Vec<PortProbe>,
}

/// Some PID in `pids` belongs to the probed tree.
pub open spec fn any_pid_owned(
    table: Seq<ProcEntry>,
    pids: Seq<u32>,
    root: u32,
    desc: Seq<u32>,
    hops: nat,
) -> bool {
    exists|i: int|
        0 <= i < pids.len() && #[trigger] owned_by_tree(table, pids[i], root, desc, hops)
}

/// The first listing among `listings` that names a port, in order.
pub open spec fn tier2_port(listings: Seq<Seq<char>>) -> Option<u16>
    decreases listings.len(),
{
    if listings.len() == 0 {
        None
    } else {
        match listing_port(listings[0]) {
            Some(p) => Some(p),
            None => tier2_port(listings.drop_first()),
        }
    }
}

/// The first well-known port whose observed listeners include a PID
/// owned by the probed tree.
pub open spec fn tier3_port(
    table: Seq<ProcEntry>,
    probes: Seq<PortProbe>,
    root: u32,
    desc: Seq<u32>,
    hops: nat,
) -> Option<u16>
    decreases probes.len(),
{
    if probes.len() == 0 {
        None
    } else {
        if any_pid_owned(table, pids_in_text(probes[0].listeners@), root, desc, hops) {
            Some(probes[0].port)
        } else {
            tier3_port(table, probes.drop_first(), root, desc, hops)
        }
    }
}

/// The tiered probe result: the root's own listing first, then the
/// descendants' listings, then the well-known-port ownership check.
pub open spec fn detect_port_spec(
    root: u32,
    table: Seq<ProcEntry>,
    desc: Seq<u32>,
    scan: PortScan,
) -> Option<u16> {
    match listing_port(scan.own_listing@) {
        Some(p) => Some(p),
        None => match tier2_port(scan.descendant_listings.deep_view()) {
            Some(p) => Some(p),
            None => tier3_port(table, scan.port_probes@, root, desc, PROBE_CHAIN_HOPS as nat),
        },
    }
}

/// Detects which TCP port a process tree is listening on, from observed
/// listings alone: the root's own sockets first, then each discovered
/// descendant's, and as a last resort the well-known ports whose
/// listeners are cross-checked for tree ownership. Yields `None`, never
/// an error, when nothing matches.
pub fn detect_port_by_pid(
    root: u32,
    table: &Vec<ProcEntry>,
    desc: &Vec<u32>,
    scan: &PortScan,
) -> (r: Option<u16>)
    ensures
        r == detect_port_spec(root, table@, desc@, *scan),
        (listing_port(scan.own_listing@) is None && (forall|i: int|
            0 <= i < scan.descendant_listings@.len() ==> listing_port(
                #[trigger] scan.descendant_listings.deep_view()[i],
            ) is None) && (forall|i: int|
            0 <= i < scan.port_probes@.len() ==> !any_pid_owned(
                table@,
                pids_in_text((#[trigger] scan.port_probes@[i]).listeners@),
                root,
                desc@,
                PROBE_CHAIN_HOPS as nat,
            ))) ==> r is None,
{
    if let Some(p) = parse_lsof_output(scan.own_listing.as_str()) {
        return Some(p);
    }
    let ghost dls = scan.descendant_listings.deep_view();
    let mut i: usize = 0;
    assert(dls.subrange(0, dls.len() as int) =~= dls);
    while i < scan.descendant_listings.len()
        invariant
            i <= dls.len(),
            dls == scan.descendant_listings.deep_view(),
            dls.len() == scan.descendant_listings@.len(),
            listing_port(scan.own_listing@) is None,
            tier2_port(dls) == tier2_port(dls.subrange(i as int, dls.len() as int)),
            forall|k: int| 0 <= k < i ==> listing_port(#[trigger] dls[k]) is None,
        decreases dls.len() - i,
    {
        let ghost rest = dls.subrange(i as int, dls.len() as int);
        assert(rest[0] == dls[i as int]);
        assert(rest.drop_first() =~= dls.subrange(i + 1, dls.len() as int));
        assert(scan.descendant_listings[i as int]@ == dls[i as int]);
        if let Some(p) = parse_lsof_output(scan.descendant_listings[i].as_str()) {
            return Some(p);
        }
        i += 1;
    }
    assert(dls.subrange(dls.len() as int, dls.len() as int) =~= Seq::<Seq<char>>::empty());
    assert(tier2_port(dls) is None);
    let ghost probes = scan.port_probes@;
    let mut j: usize = 0;
    assert(probes.subrange(0, probes.len() as int) =~= probes);
    while j < scan.port_probes.len()
        invariant
            j <= probes.len(),
            probes == scan.port_probes@,
            tier2_port(scan.descendant_listings.deep_view()) is None,
            listing_port(scan.own_listing@) is None,
            tier3_port(table@, probes, root, desc@, PROBE_CHAIN_HOPS as nat) == tier3_port(
                table@,
                probes.subrange(j as int, probes.len() as int),
                root,
                desc@,
                PROBE_CHAIN_HOPS as nat,
            ),
            forall|k: int|
                0 <= k < j ==> !any_pid_owned(
                    table@,
                    pids_in_text((#[trigger] probes[k]).listeners@),
                    root,
                    desc@,
                    PROBE_CHAIN_HOPS as nat,
                ),
        decreases probes.len() - j,
    {
        let ghost rest = probes.subrange(j as int, probes.len() as int);
        assert(rest[0] == probes[j as int]);
        assert(rest.drop_first() =~= probes.subrange(j + 1, probes.len() as int));
        let pids = parse_pid_list(scan.port_probes[j].listeners.as_str());
        let mut k: usize = 0;
        while k < pids.len()
            invariant
                k <= pids@.len(),
                pids@ == pids_in_text(probes[j as int].listeners@),
                j < probes.len(),
                probes == scan.port_probes@,
                listing_port(scan.own_listing@) is None,
                tier2_port(scan.descendant_listings.deep_view()) is None,
                tier3_port(table@, probes, root, desc@, PROBE_CHAIN_HOPS as nat) == tier3_port(
                    table@,
                    probes.subrange(j as int, probes.len() as int),
                    root,
                    desc@,
                    PROBE_CHAIN_HOPS as nat,
                ),
                forall|m: int|
                    0 <= m < k ==> !owned_by_tree(
                        table@,
                        #[trigger] pids@[m],
                        root,
                        desc@,
                        PROBE_CHAIN_HOPS as nat,
                    ),
            decreases pids@.len() - k,
        {
            if pid_within_tree(table, pids[k], root, desc, PROBE_CHAIN_HOPS) {
                proof {
                    let rest2 = probes.subrange(j as int, probes.len() as int);
                    assert(rest2[0] == probes[j as int]);
                    assert(any_pid_owned(
                        table@,
                        pids_in_text(probes[j as int].listeners@),
                        root,
                        desc@,
                        PROBE_CHAIN_HOPS as nat,
                    ));
                    assert(tier3_port(table@, rest2, root, desc@, PROBE_CHAIN_HOPS as nat)
                        == Some(probes[j as int].port));
                }
                return Some(scan.port_probes[j].port);
            }
            k += 1;
        }
        proof {
            assert(!any_pid_owned(
                table@,
                pids_in_text(probes[j as int].listeners@),
                root,
                desc@,
                PROBE_CHAIN_HOPS as nat,
            ));
        }
        j += 1;
    }
    assert(probes.subrange(probes.len() as int, probes.len() as int) =~= Seq::<PortProbe>::empty());
    None
}

} // verus!
