//! Process-tree discovery and kill planning over a snapshot of the OS
//! process table: breadth-first descendant discovery, ancestor-chain
//! walking, and the reverse-order kill list that must never name the
//! supervising process or its ancestors.
use crate::strutil;
use vstd::prelude::*;

verus! {

/// A process-table entry: one process and its parent, as reported by the
/// OS process listing.
pub struct ProcEntry {
    pub pid: u32,
    pub ppid: u32,
}

impl ProcEntry {
    pub fn new(pid: u32, ppid: u32) -> (r: ProcEntry)
        ensures
            r.pid == pid,
            r.ppid == ppid,
    {
        ProcEntry { pid, ppid }
    }
}

/// `child` is listed as a direct child of `parent` in the table.
pub open spec fn is_child_of(table: Seq<ProcEntry>, child: u32, parent: u32) -> bool {
    exists|k: int|
        0 <= k < table.len() && table[k].ppid == parent && (#[trigger] table[k].pid) == child
}

/// No PID appears twice.
pub open spec fn distinct_seq(s: Seq<u32>) -> bool {
    forall|i: int, j: int| 0 <= i < j < s.len() ==> s[i] != s[j]
}

/// Member `i` of `s` is a table child of some earlier member.
pub open spec fn has_parent_in_prefix(table: Seq<ProcEntry>, s: Seq<u32>, i: int) -> bool {
    exists|j: int| 0 <= j < i && #[trigger] is_child_of(table, s[i], s[j])
}

/// Every member after the first was discovered as a table child of an
/// earlier member: the sequence really is a tree rooted at its head.
pub open spec fn sound_tree(table: Seq<ProcEntry>, s: Seq<u32>) -> bool {
    forall|i: int| 0 < i < s.len() ==> #[trigger] has_parent_in_prefix(table, s, i)
}

/// Appending a fresh child of a present parent keeps a discovered tree
/// distinct and sound, and only grows what it contains.
proof fn lemma_tree_push(table: Seq<ProcEntry>, prev: Seq<u32>, now: Seq<u32>, child: u32, parent: u32)
    requires
        now =~= prev.push(child),
        !prev.contains(child),
        prev.len() >= 1,
        distinct_seq(prev),
        sound_tree(table, prev),
        prev.contains(parent),
        is_child_of(table, child, parent),
    ensures
        distinct_seq(now),
        sound_tree(table, now),
        forall|x: u32| prev.contains(x) ==> now.contains(x),
        now.contains(child),
        now.len() == prev.len() + 1,
        now[0] == prev[0],
        forall|i: int| 0 <= i < prev.len() ==> now[i] == #[trigger] prev[i],
{
    assert(forall|i: int| 0 <= i < prev.len() ==> now[i] == #[trigger] prev[i]);
    assert(now[prev.len() as int] == child);
    assert forall|x: u32| prev.contains(x) implies now.contains(x) by {
        let i = choose|i: int| 0 <= i < prev.len() && prev[i] == x;
        assert(now[i] == x);
    }
    assert(distinct_seq(now)) by {
        assert(forall|i: int| 0 <= i < prev.len() ==> #[trigger] prev[i] != child);
    }
    assert forall|i: int| 0 < i < now.len() implies #[trigger] has_parent_in_prefix(
        table,
        now,
        i,
    ) by {
        if i < prev.len() {
            assert(now[i] == prev[i]);
            assert(has_parent_in_prefix(table, prev, i));
            let j = choose|j: int| 0 <= j < i && #[trigger] is_child_of(table, prev[i], prev[j]);
            assert(now[j] == prev[j]);
            assert(is_child_of(table, now[i], now[j]));
        } else {
            let pj = choose|j: int| 0 <= j < prev.len() && prev[j] == parent;
            assert(is_child_of(table, now[i], now[pj]));
        }
    }
}

/// The parent recorded for `p`: the `ppid` of the first table entry whose
/// `pid` is `p`.
pub open spec fn ppid_of(table: Seq<ProcEntry>, p: u32) -> Option<u32>
    decreases table.len(),
{
    if table.len() == 0 {
        None
    } else if table[0].pid == p {
        Some(table[0].ppid)
    } else {
        ppid_of(table.drop_first(), p)
    }
}

/// Looks up the parent of `p` in the table (first matching row wins).
pub fn lookup_ppid(table: &Vec<ProcEntry>, p: u32) -> (r: Option<u32>)
    ensures
        r == ppid_of(table@, p),
{
    let mut i: usize = 0;
    assert(table@.subrange(0, table@.len() as int) =~= table@);
    while i < table.len()
        invariant
            i <= table@.len(),
            ppid_of(table@, p) == ppid_of(table@.subrange(i as int, table@.len() as int), p),
        decreases table@.len() - i,
    {
        let ghost rest = table@.subrange(i as int, table@.len() as int);
        assert(rest[0] == table@[i as int]);
        assert(rest.drop_first() =~= table@.subrange(i + 1, table@.len() as int));
        if table[i].pid == p {
            return Some(table[i].ppid);
        }
        i += 1;
    }
    None
}

/// `c` lies within `d` child steps below `root` in the table (the root
/// itself counts, at every depth).
pub open spec fn in_reach(table: Seq<ProcEntry>, root: u32, c: u32, d: nat) -> bool
    decreases d,
{
    if d == 0 {
        c == root
    } else {
        in_reach(table, root, c, (d - 1) as nat) || (exists|p: u32|
            #[trigger] is_child_of(table, c, p) && in_reach(table, root, p, (d - 1) as nat))
    }
}

/// Everything within `d` steps of the root is in `s`.
pub open spec fn level_complete(table: Seq<ProcEntry>, root: u32, s: Seq<u32>, d: nat) -> bool {
    forall|c: u32| #[trigger] in_reach(table, root, c, d) ==> s.contains(c)
}

/// `s` contains the children of all its members, except members still
/// waiting on one of the two work lists.
pub open spec fn closed_except(
    table: Seq<ProcEntry>,
    s: Seq<u32>,
    f1: Seq<u32>,
    f2: Seq<u32>,
) -> bool {
    forall|k: int|
        0 <= k < table.len() && s.contains((#[trigger] table[k]).ppid) && !f1.contains(
            table[k].ppid,
        ) && !f2.contains(table[k].ppid) ==> s.contains(table[k].pid)
}

/// The children of every parent named in `parents` are in `s`.
pub open spec fn rows_covered(table: Seq<ProcEntry>, parents: Seq<u32>, s: Seq<u32>) -> bool {
    forall|k: int|
        0 <= k < table.len() && parents.contains((#[trigger] table[k]).ppid) ==> s.contains(
            table[k].pid,
        )
}

pub open spec fn prefix_of(a: Seq<u32>, b: Seq<u32>) -> bool {
    a.len() <= b.len() && forall|i: int| 0 <= i < a.len() ==> b[i] == #[trigger] a[i]
}

/// Reachability only grows with depth.
proof fn lemma_reach_mono(table: Seq<ProcEntry>, root: u32, c: u32, d1: nat, d2: nat)
    requires
        d1 <= d2,
        in_reach(table, root, c, d1),
    ensures
        in_reach(table, root, c, d2),
    decreases d2,
{
    if d2 > d1 {
        lemma_reach_mono(table, root, c, d1, (d2 - 1) as nat);
    }
}

/// A set containing the root and closed under table children contains
/// everything within any reach of the root.
proof fn lemma_closed_covers_reach(
    table: Seq<ProcEntry>,
    root: u32,
    s: Seq<u32>,
    c: u32,
    d: nat,
)
    requires
        s.contains(root),
        closed_except(table, s, Seq::empty(), Seq::empty()),
        in_reach(table, root, c, d),
    ensures
        s.contains(c),
    decreases d,
{
    if d > 0 {
        if in_reach(table, root, c, (d - 1) as nat) {
            lemma_closed_covers_reach(table, root, s, c, (d - 1) as nat);
        } else {
            let p = choose|p: u32|
                #[trigger] is_child_of(table, c, p) && in_reach(table, root, p, (d - 1) as nat);
            lemma_closed_covers_reach(table, root, s, p, (d - 1) as nat);
            let k = choose|k: int|
                0 <= k < table.len() && table[k].ppid == p && (#[trigger] table[k].pid) == c;
            assert(s.contains(table[k].ppid));
            assert(s.contains(table[k].pid));
        }
    }
}

/// One breadth-first level: if everything within `d` steps was found
/// before the level, the level processed every waiting member, and the
/// additions all went onto the next work list, then everything within
/// `d + 1` steps is found and only the next list is still owed work.
proof fn lemma_level_step(
    table: Seq<ProcEntry>,
    root: u32,
    entry: Seq<u32>,
    frontier: Seq<u32>,
    now: Seq<u32>,
    next: Seq<u32>,
    d: nat,
)
    requires
        level_complete(table, root, entry, d),
        closed_except(table, entry, frontier, Seq::empty()),
        prefix_of(entry, now),
        forall|i: int| entry.len() <= i < now.len() ==> next.contains(#[trigger] now[i]),
        rows_covered(table, frontier, now),
    ensures
        level_complete(table, root, now, (d + 1) as nat),
        closed_except(table, now, next, Seq::empty()),
{
    assert forall|x: u32| entry.contains(x) implies now.contains(x) by {
        let i = choose|i: int| 0 <= i < entry.len() && entry[i] == x;
        assert(now[i] == entry[i]);
    }
    assert forall|k: int|
        0 <= k < table.len() && now.contains((#[trigger] table[k]).ppid) && !next.contains(
            table[k].ppid,
        ) && !Seq::<u32>::empty().contains(table[k].ppid) implies now.contains(table[k].pid) by {
        let p = table[k].ppid;
        let i = choose|i: int| 0 <= i < now.len() && now[i] == p;
        if i < entry.len() {
            assert(entry[i] == p);
            assert(entry.contains(p));
            if frontier.contains(p) {
                assert(now.contains(table[k].pid));
            } else {
                assert(entry.contains(table[k].pid));
            }
        } else {
            assert(next.contains(now[i]));
            assert(false);
        }
    }
    assert forall|c: u32| #[trigger] in_reach(table, root, c, (d + 1) as nat) implies now.contains(
        c,
    ) by {
        assert((((d + 1) as nat) - 1) as nat == d);
        if in_reach(table, root, c, d) {
            assert(entry.contains(c));
        } else {
            let p = choose|p: u32|
                #[trigger] is_child_of(table, c, p) && in_reach(table, root, p, d);
            assert(entry.contains(p));
            let k = choose|k: int|
                0 <= k < table.len() && table[k].ppid == p && (#[trigger] table[k].pid) == c;
            if frontier.contains(p) {
                assert(now.contains(table[k].pid));
            } else {
                assert(entry.contains(table[k].pid));
            }
        }
    }
}

/// Every member of `s` lies within `d` child steps of the root.
pub open spec fn within_depth(table: Seq<ProcEntry>, root: u32, s: Seq<u32>, d: nat) -> bool {
    forall|i: int| 0 <= i < s.len() ==> in_reach(table, root, #[trigger] s.index(i), d)
}

/// Members appear in nondecreasing discovery depth: whenever some member
/// lies within depth `d`, so does every earlier member — the levels of a
/// breadth-first walk.
pub open spec fn level_ordered(table: Seq<ProcEntry>, root: u32, s: Seq<u32>) -> bool {
    forall|j: int, d: nat|
        0 <= j < s.len() && #[trigger] in_reach(table, root, s[j], d) ==> (forall|i: int|
            0 <= i < j ==> in_reach(table, root, #[trigger] s.index(i), d))
}

/// Appending a member first reached at the next level keeps the list
/// level-ordered and within the next level's depth.
proof fn lemma_ordered_push(
    table: Seq<ProcEntry>,
    root: u32,
    prev: Seq<u32>,
    now: Seq<u32>,
    child: u32,
    lvl: nat,
)
    requires
        now =~= prev.push(child),
        level_ordered(table, root, prev),
        within_depth(table, root, prev, (lvl + 1) as nat),
        in_reach(table, root, child, (lvl + 1) as nat),
        !in_reach(table, root, child, lvl),
    ensures
        level_ordered(table, root, now),
        within_depth(table, root, now, (lvl + 1) as nat),
{
    assert(forall|i: int| 0 <= i < prev.len() ==> now[i] == #[trigger] prev[i]);
    assert(now[prev.len() as int] == child);
    assert forall|i: int| 0 <= i < now.len() implies in_reach(
        table,
        root,
        #[trigger] now.index(i),
        (lvl + 1) as nat,
    ) by {
        if i < prev.len() {
            assert(in_reach(table, root, prev.index(i), (lvl + 1) as nat));
        } else {
            assert(now[i] == child);
        }
    }
    assert forall|j: int, d: nat|
        0 <= j < now.len() && #[trigger] in_reach(table, root, now[j], d) implies (forall|i: int|
        0 <= i < j ==> in_reach(table, root, #[trigger] now.index(i), d)) by {
        if j < prev.len() {
            assert(in_reach(table, root, prev[j], d));
            assert forall|i: int| 0 <= i < j implies in_reach(
                table,
                root,
                #[trigger] now.index(i),
                d,
            ) by {
                assert(in_reach(table, root, prev.index(i), d));
            }
        } else {
            assert(now[j] == child);
            if d <= lvl {
                lemma_reach_mono(table, root, child, d, lvl);
                assert(false);
            }
            assert forall|i: int| 0 <= i < j implies in_reach(
                table,
                root,
                #[trigger] now.index(i),
                d,
            ) by {
                assert(in_reach(table, root, prev.index(i), (lvl + 1) as nat));
                lemma_reach_mono(table, root, prev[i], (lvl + 1) as nat, d);
            }
        }
    }
}

/// One discovery push, seen by the level bookkeeping: the found list and
/// the next work list both grow by the same fresh child.
proof fn lemma_inner_push(
    table: Seq<ProcEntry>,
    entry: Seq<u32>,
    frontier: Seq<u32>,
    found_prev: Seq<u32>,
    found_now: Seq<u32>,
    next_prev: Seq<u32>,
    next_now: Seq<u32>,
    child: u32,
    fi: int,
)
    requires
        found_now =~= found_prev.push(child),
        next_now =~= next_prev.push(child),
        prefix_of(entry, found_prev),
        forall|i: int|
            entry.len() <= i < found_prev.len() ==> next_prev.contains(#[trigger] found_prev[i]),
        0 <= fi <= frontier.len(),
        rows_covered(table, frontier.subrange(0, fi), found_prev),
        closed_except(table, found_prev, frontier, next_prev),
    ensures
        prefix_of(entry, found_now),
        forall|i: int|
            entry.len() <= i < found_now.len() ==> next_now.contains(#[trigger] found_now[i]),
        rows_covered(table, frontier.subrange(0, fi), found_now),
        closed_except(table, found_now, frontier, next_now),
{
    assert(forall|i: int| 0 <= i < found_prev.len() ==> found_now[i] == #[trigger] found_prev[i]);
    assert(found_now[found_prev.len() as int] == child);
    assert(forall|i: int| 0 <= i < next_prev.len() ==> next_now[i] == #[trigger] next_prev[i]);
    assert(next_now[next_prev.len() as int] == child);
    assert forall|x: u32| found_prev.contains(x) implies found_now.contains(x) by {
        let i = choose|i: int| 0 <= i < found_prev.len() && found_prev[i] == x;
        assert(found_now[i] == x);
    }
    assert forall|x: u32| next_prev.contains(x) implies next_now.contains(x) by {
        let i = choose|i: int| 0 <= i < next_prev.len() && next_prev[i] == x;
        assert(next_now[i] == x);
    }
    assert(next_now.contains(child));
    assert forall|i: int|
        entry.len() <= i < found_now.len() implies next_now.contains(#[trigger] found_now[i]) by {
        if i < found_prev.len() {
            assert(found_now[i] == found_prev[i]);
            assert(next_prev.contains(found_prev[i]));
        } else {
            assert(found_now[i] == child);
        }
    }
    assert forall|k: int|
        0 <= k < table.len() && frontier.subrange(0, fi).contains((#[trigger] table[k]).ppid)
        implies found_now.contains(table[k].pid) by {
        assert(found_prev.contains(table[k].pid));
    }
    assert forall|k: int|
        0 <= k < table.len() && found_now.contains((#[trigger] table[k]).ppid) && !frontier.contains(
            table[k].ppid,
        ) && !next_now.contains(table[k].ppid) implies found_now.contains(table[k].pid) by {
        let p = table[k].ppid;
        let i = choose|i: int| 0 <= i < found_now.len() && found_now[i] == p;
        if i < found_prev.len() {
            assert(found_prev.contains(p));
            assert(!next_prev.contains(p));
            assert(found_prev.contains(table[k].pid));
        } else {
            assert(p == child);
            assert(false);
        }
    }
}

/// Breadth-first descendant discovery from `root`: the root first, then
/// each level of children found in the table, deduplicated, stopping
/// after `max_depth` levels or on an empty frontier. Everything the
/// table places within `max_depth` child steps of the root is found; a
/// root the table gives no children comes back alone.
pub fn descendants(table: &Vec<ProcEntry>, root: u32, max_depth: usize) -> (r: Vec<u32>)
    ensures
        r@.len() >= 1,
        r@[0] == root,
        distinct_seq(r@),
        sound_tree(table@, r@),
        forall|c: u32| #[trigger] in_reach(table@, root, c, max_depth as nat) ==> r@.contains(c),
        max_depth > 0 ==> forall|k: int|
            0 <= k < table@.len() && (#[trigger] table@[k].ppid) == root ==> r@.contains(
                table@[k].pid,
            ),
        within_depth(table@, root, r@, max_depth as nat),
        level_ordered(table@, root, r@),
        (forall|k: int| 0 <= k < table@.len() ==> (#[trigger] table@[k].ppid) != root) ==> r@
            =~= seq![root],
{
    let ghost no_kids = forall|k: int|
        0 <= k < table@.len() ==> (#[trigger] table@[k].ppid) != root;
    let mut found: Vec<u32> = Vec::new();
    found.push(root);
    assert(found@ =~= seq![root]);
    assert(found@.contains(root)) by {
        assert(found@[0] == root);
    }
    proof {
        assert forall|i: int| 0 <= i < found@.len() implies in_reach(
            table@,
            root,
            #[trigger] found@.index(i),
            1nat,
        ) by {
            assert(found@[i] == root);
            assert(in_reach(table@, root, root, 0nat));
        }
        assert(level_ordered(table@, root, found@)) by {
            assert forall|j: int, d: nat|
                0 <= j < found@.len() && #[trigger] in_reach(table@, root, found@[j], d) implies (
            forall|i: int| 0 <= i < j ==> in_reach(table@, root, #[trigger] found@.index(i), d)) by {
                assert(j == 0);
            }
        }
    }
    if max_depth == 0 {
        assert forall|c: u32| #[trigger] in_reach(table@, root, c, max_depth as nat)
            implies found@.contains(c) by {
            assert(c == root);
        }
        assert forall|i: int| 0 <= i < found@.len() implies in_reach(
            table@,
            root,
            #[trigger] found@.index(i),
            max_depth as nat,
        ) by {
            assert(found@[i] == root);
        }
        return found;
    }
    // Level zero: the direct children of the root.
    let mut frontier: Vec<u32> = Vec::new();
    let mut ti: usize = 0;
    while ti < table.len()
        invariant
            ti <= table@.len(),
            found@.len() >= 1,
            found@[0] == root,
            distinct_seq(found@),
            sound_tree(table@, found@),
            found@.contains(root),
            forall|i: int| 0 <= i < frontier@.len() ==> found@.contains(#[trigger] frontier@[i]),
            forall|i: int|
                0 <= i < found@.len() ==> (#[trigger] found@[i]) == root || frontier@.contains(
                    found@[i],
                ),
            forall|k: int|
                0 <= k < ti && (#[trigger] table@[k].ppid) == root ==> found@.contains(
                    table@[k].pid,
                ),
            within_depth(table@, root, found@, 1nat),
            level_ordered(table@, root, found@),
            no_kids == (forall|k: int|
                0 <= k < table@.len() ==> (#[trigger] table@[k].ppid) != root),
            no_kids ==> found@ =~= seq![root],
        decreases table@.len() - ti,
    {
        if table[ti].ppid == root {
            let child = table[ti].pid;
            assert(is_child_of(table@, child, root)) by {
                assert(table@[ti as int].pid == child && table@[ti as int].ppid == root);
            }
            if !strutil::vec_contains_u32(&found, child) {
                let ghost prev = found@;
                let ghost fprev = frontier@;
                found.push(child);
                frontier.push(child);
                proof {
                    assert(in_reach(table@, root, child, 1nat)) by {
                        assert(is_child_of(table@, child, root) && in_reach(
                            table@,
                            root,
                            root,
                            0nat,
                        ));
                    }
                    assert(!in_reach(table@, root, child, 0nat)) by {
                        assert(child != root) by {
                            assert(!prev.contains(child) && prev.contains(root));
                        }
                    }
                    lemma_ordered_push(table@, root, prev, found@, child, 0nat);
                    lemma_tree_push(table@, prev, found@, child, root);
                    assert(frontier@ =~= fprev.push(child));
                    assert(forall|i: int| 0 <= i < fprev.len() ==> frontier@[i] == #[trigger] fprev[i]);
                    assert(frontier@[fprev.len() as int] == child);
                    assert forall|x: u32| fprev.contains(x) implies frontier@.contains(x) by {
                        let i = choose|i: int| 0 <= i < fprev.len() && fprev[i] == x;
                        assert(frontier@[i] == x);
                    }
                    assert(frontier@.contains(child));
                    assert forall|i: int|
                        0 <= i < found@.len() implies (#[trigger] found@[i]) == root
                        || frontier@.contains(found@[i]) by {
                        if i < prev.len() {
                            assert(found@[i] == prev[i]);
                        } else {
                            assert(found@[i] == child);
                        }
                    }
                }
            }
        }
        ti += 1;
    }
    proof {
        assert(level_complete(table@, root, found@, 1nat)) by {
            assert forall|c: u32| #[trigger] in_reach(table@, root, c, 1nat)
                implies found@.contains(c) by {
                if c != root {
                    assert(!in_reach(table@, root, c, 0nat));
                    let p = choose|p: u32|
                        #[trigger] is_child_of(table@, c, p) && in_reach(table@, root, p, 0nat);
                    assert(p == root);
                    let k = choose|k: int|
                        0 <= k < table@.len() && table@[k].ppid == p && (#[trigger] table@[k].pid)
                            == c;
                    assert(found@.contains(table@[k].pid));
                }
            }
        }
        assert(closed_except(table@, found@, frontier@, Seq::empty())) by {
            assert forall|k: int|
                0 <= k < table@.len() && found@.contains((#[trigger] table@[k]).ppid)
                    && !frontier@.contains(table@[k].ppid) && !Seq::<u32>::empty().contains(
                    table@[k].ppid,
                ) implies found@.contains(table@[k].pid) by {
                let p = table@[k].ppid;
                let i = choose|i: int| 0 <= i < found@.len() && found@[i] == p;
                assert(found@[i] == root || frontier@.contains(found@[i]));
                assert(p == root);
            }
        }
    }
    // Deeper levels.
    let mut level: usize = 1;
    while level < max_depth && frontier.len() > 0
        invariant
            1 <= level <= max_depth,
            found@.len() >= 1,
            found@[0] == root,
            distinct_seq(found@),
            sound_tree(table@, found@),
            found@.contains(root),
            forall|i: int| 0 <= i < frontier@.len() ==> found@.contains(#[trigger] frontier@[i]),
            forall|k: int|
                0 <= k < table@.len() && (#[trigger] table@[k].ppid) == root ==> found@.contains(
                    table@[k].pid,
                ),
            level_complete(table@, root, found@, level as nat),
            closed_except(table@, found@, frontier@, Seq::empty()),
            within_depth(table@, root, found@, level as nat),
            level_ordered(table@, root, found@),
            no_kids ==> found@ =~= seq![root],
        decreases max_depth - level,
    {
        let ghost entry = found@;
        let ghost frontier_snap = frontier@;
        assert(prefix_of(entry, found@));
        assert(frontier@.subrange(0, 0) =~= Seq::<u32>::empty());
        proof {
            assert forall|i: int| 0 <= i < found@.len() implies in_reach(
                table@,
                root,
                #[trigger] found@.index(i),
                (level + 1) as nat,
            ) by {
                lemma_reach_mono(table@, root, found@[i], level as nat, (level + 1) as nat);
            }
            assert forall|i: int| 0 <= i < frontier@.len() implies in_reach(
                table@,
                root,
                #[trigger] frontier@.index(i),
                level as nat,
            ) by {
                assert(found@.contains(frontier@[i]));
                let fx = choose|x: int| 0 <= x < found@.len() && found@[x] == frontier@[i];
                assert(in_reach(table@, root, found@.index(fx), level as nat));
            }
        }
        let mut next: Vec<u32> = Vec::new();
        let mut fi: usize = 0;
        while fi < frontier.len()
            invariant
                fi <= frontier@.len(),
                frontier@ == frontier_snap,
                found@.len() >= 1,
                found@[0] == root,
                distinct_seq(found@),
                sound_tree(table@, found@),
                found@.contains(root),
                forall|i: int|
                    0 <= i < frontier@.len() ==> found@.contains(#[trigger] frontier@[i]),
                forall|k: int|
                    0 <= k < table@.len() && (#[trigger] table@[k].ppid) == root
                        ==> found@.contains(table@[k].pid),
                prefix_of(entry, found@),
                forall|i: int|
                    entry.len() <= i < found@.len() ==> next@.contains(#[trigger] found@[i]),
                forall|i: int| 0 <= i < next@.len() ==> found@.contains(#[trigger] next@[i]),
                rows_covered(table@, frontier@.subrange(0, fi as int), found@),
                closed_except(table@, found@, frontier@, next@),
                within_depth(table@, root, found@, (level + 1) as nat),
                level_ordered(table@, root, found@),
                forall|i: int|
                    0 <= i < frontier@.len() ==> in_reach(
                        table@,
                        root,
                        #[trigger] frontier@.index(i),
                        level as nat,
                    ),
                level_complete(table@, root, entry, level as nat),
                no_kids ==> found@ =~= seq![root],
            decreases frontier@.len() - fi,
        {
            let parent = frontier[fi];
            let mut ti2: usize = 0;
            while ti2 < table.len()
                invariant
                    ti2 <= table@.len(),
                    fi < frontier@.len(),
                    frontier@ == frontier_snap,
                    parent == frontier@[fi as int],
                    found@.len() >= 1,
                    found@[0] == root,
                    distinct_seq(found@),
                    sound_tree(table@, found@),
                    found@.contains(root),
                    found@.contains(parent),
                    forall|i: int|
                        0 <= i < frontier@.len() ==> found@.contains(#[trigger] frontier@[i]),
                    forall|k: int|
                        0 <= k < table@.len() && (#[trigger] table@[k].ppid) == root
                            ==> found@.contains(table@[k].pid),
                    prefix_of(entry, found@),
                    forall|i: int|
                        entry.len() <= i < found@.len() ==> next@.contains(#[trigger] found@[i]),
                    forall|i: int| 0 <= i < next@.len() ==> found@.contains(#[trigger] next@[i]),
                    rows_covered(table@, frontier@.subrange(0, fi as int), found@),
                    forall|k: int|
                        0 <= k < ti2 && (#[trigger] table@[k]).ppid == parent ==> found@.contains(
                            table@[k].pid,
                        ),
                    closed_except(table@, found@, frontier@, next@),
                    within_depth(table@, root, found@, (level + 1) as nat),
                    level_ordered(table@, root, found@),
                    in_reach(table@, root, parent, level as nat),
                    level_complete(table@, root, entry, level as nat),
                    no_kids ==> found@ =~= seq![root],
                decreases table@.len() - ti2,
            {
                if table[ti2].ppid == parent {
                    let child = table[ti2].pid;
                    assert(is_child_of(table@, child, parent)) by {
                        assert(table@[ti2 as int].pid == child && table@[ti2 as int].ppid
                            == parent);
                    }
                    if !strutil::vec_contains_u32(&found, child) {
                        let ghost prev = found@;
                        let ghost nprev = next@;
                        found.push(child);
                        next.push(child);
                        proof {
                            assert(in_reach(table@, root, child, (level + 1) as nat)) by {
                                assert(is_child_of(table@, child, parent) && in_reach(
                                    table@,
                                    root,
                                    parent,
                                    ((level + 1) as nat - 1) as nat,
                                ));
                            }
                            assert(!in_reach(table@, root, child, level as nat)) by {
                                if in_reach(table@, root, child, level as nat) {
                                    assert(entry.contains(child));
                                    let ex = choose|x: int|
                                        0 <= x < entry.len() && entry[x] == child;
                                    assert(prev[ex] == entry[ex]);
                                    assert(prev.contains(child));
                                    assert(false);
                                }
                            }
                            lemma_ordered_push(table@, root, prev, found@, child, level as nat);
                            lemma_tree_push(table@, prev, found@, child, parent);
                            lemma_inner_push(
                                table@,
                                entry,
                                frontier@,
                                prev,
                                found@,
                                nprev,
                                next@,
                                child,
                                fi as int,
                            );
                            assert(next@ =~= nprev.push(child));
                            assert forall|i: int|
                                0 <= i < next@.len() implies found@.contains(
                                #[trigger] next@[i],
                            ) by {
                                if i < nprev.len() {
                                    assert(next@[i] == nprev[i]);
                                    assert(prev.contains(nprev[i]));
                                } else {
                                    assert(next@[i] == child);
                                }
                            }
                            if no_kids {
                                assert(prev =~= seq![root]);
                                assert(parent == root);
                                assert(table@[ti2 as int].ppid != root);
                                assert(false);
                            }
                        }
                    }
                }
                ti2 += 1;
            }
            proof {
                let done = frontier@.subrange(0, fi + 1);
                assert(done =~= frontier@.subrange(0, fi as int).push(parent));
                assert forall|k: int|
                    0 <= k < table@.len() && done.contains((#[trigger] table@[k]).ppid)
                    implies found@.contains(table@[k].pid) by {
                    let p = table@[k].ppid;
                    let i = choose|i: int| 0 <= i < done.len() && done[i] == p;
                    if i < fi {
                        assert(frontier@.subrange(0, fi as int)[i] == p);
                        assert(frontier@.subrange(0, fi as int).contains(p));
                    } else {
                        assert(p == parent);
                    }
                }
            }
            fi += 1;
        }
        proof {
            assert(frontier@.subrange(0, frontier@.len() as int) =~= frontier@);
            assert(rows_covered(table@, frontier@, found@));
            lemma_level_step(
                table@,
                root,
                entry,
                frontier@,
                found@,
                next@,
                level as nat,
            );
            assert(((level as nat) + 1) as nat == (level + 1) as nat);
        }
        frontier = next;
        level += 1;
    }
    proof {
        assert forall|i: int| 0 <= i < found@.len() implies in_reach(
            table@,
            root,
            #[trigger] found@.index(i),
            max_depth as nat,
        ) by {
            lemma_reach_mono(table@, root, found@[i], level as nat, max_depth as nat);
        }
        assert forall|c: u32| #[trigger] in_reach(table@, root, c, max_depth as nat)
            implies found@.contains(c) by {
            if frontier@.len() == 0 {
                assert(closed_except(table@, found@, Seq::empty(), Seq::empty())) by {
                    assert forall|k: int|
                        0 <= k < table@.len() && found@.contains((#[trigger] table@[k]).ppid)
                            && !Seq::<u32>::empty().contains(table@[k].ppid)
                            && !Seq::<u32>::empty().contains(table@[k].ppid)
                        implies found@.contains(table@[k].pid) by {
                        assert(!frontier@.contains(table@[k].ppid));
                    }
                }
                lemma_closed_covers_reach(table@, root, found@, c, max_depth as nat);
            } else {
                assert(level >= max_depth);
                assert(level == max_depth);
                assert(in_reach(table@, root, c, level as nat));
            }
        }
    }
    found
}

/// Consecutive members are linked by recorded parent pointers.
pub open spec fn chain_linked(table: Seq<ProcEntry>, s: Seq<u32>) -> bool {
    forall|i: int| 0 <= i < s.len() - 1 ==> ppid_of(table, #[trigger] s[i]) == Some(s[i + 1])
}

/// The ancestor walk stopped for a reason the policy names: the last
/// member has no recorded parent, or its parent is itself, zero, the
/// init process, or a cycle back into the chain.
pub open spec fn ancestor_walk_done(table: Seq<ProcEntry>, chain: Seq<u32>) -> bool {
    chain.len() > 0 && match ppid_of(table, chain.last()) {
        None => true,
        Some(pp) => pp == chain.last() || pp <= 1 || chain.contains(pp),
    }
}

/// Walks parent links upward from `start`, collecting each ancestor,
/// stopping at PID 1 or below, on a missing, zero, or self-referential
/// parent, or on a cycle. The supervisor's ancestor set is this chain
/// computed from its own parent PID.
pub fn ancestors_of(table: &Vec<ProcEntry>, start: u32) -> (r: Vec<u32>)
    ensures
        distinct_seq(r@),
        forall|i: int| 0 <= i < r@.len() ==> (#[trigger] r@[i]) > 1,
        start > 1 ==> r@.len() >= 1 && r@[0] == start,
        start <= 1 ==> r@.len() == 0,
        chain_linked(table@, r@),
        start > 1 ==> ancestor_walk_done(table@, r@) || r@.len() > table@.len(),
{
    let mut r: Vec<u32> = Vec::new();
    let mut current: u32 = start;
    loop
        invariant_except_break
            r@.len() > 0 ==> ppid_of(table@, r@.last()) == Some(current),
        invariant
            distinct_seq(r@),
            forall|i: int| 0 <= i < r@.len() ==> (#[trigger] r@[i]) > 1,
            start > 1 && r@.len() > 0 ==> r@[0] == start,
            start <= 1 ==> r@.len() == 0 && current == start,
            r@.len() == 0 ==> current == start,
            r@.len() <= table@.len() + 1,
            chain_linked(table@, r@),
        ensures
            distinct_seq(r@),
            forall|i: int| 0 <= i < r@.len() ==> (#[trigger] r@[i]) > 1,
            start > 1 ==> r@.len() >= 1 && r@[0] == start,
            start <= 1 ==> r@.len() == 0,
            chain_linked(table@, r@),
            start > 1 ==> ancestor_walk_done(table@, r@) || r@.len() > table@.len(),
        decreases table@.len() + 2 - r@.len(),
    {
        if current <= 1 {
            break ;
        }
        if strutil::vec_contains_u32(&r, current) {
            break ;
        }
        if r.len() > table.len() {
            break ;
        }
        let ghost prev = r@;
        r.push(current);
        proof {
            assert(r@.drop_last() =~= prev);
            assert(forall|i: int| 0 <= i < prev.len() ==> r@[i] == #[trigger] prev[i]);
            assert(r@.last() == current);
            assert(forall|i: int| 0 <= i < prev.len() ==> #[trigger] prev[i] != current);
        }
        match lookup_ppid(table, current) {
            Some(pp) => {
                if pp == current || pp == 0 {
                    break ;
                }
                current = pp;
            },
            None => {
                break ;
            },
        }
    }
    r
}

/// The kill order over a discovered tree: reverse discovery order
/// (deepest first), with the supervising process and every member of its
/// ancestor set removed entirely — those are never kill targets.
pub open spec fn kill_order_spec(tree: Seq<u32>, self_pid: u32, ancestors: Seq<u32>) -> Seq<u32>
    decreases tree.len(),
{
    if tree.len() == 0 {
        Seq::empty()
    } else {
        kill_order_spec(tree.drop_first(), self_pid, ancestors) + (if tree[0] != self_pid
            && !ancestors.contains(tree[0]) {
            seq![tree[0]]
        } else {
            Seq::empty()
        })
    }
}

/// Safety of the kill order: no PID it names is the supervisor or one of
/// the supervisor's ancestors, whatever tree was discovered and however
/// the supervisor's own chain showed up inside it.
pub proof fn lemma_kill_order_safe(tree: Seq<u32>, self_pid: u32, ancestors: Seq<u32>)
    ensures
        !kill_order_spec(tree, self_pid, ancestors).contains(self_pid),
        forall|a: u32|
            ancestors.contains(a) ==> !kill_order_spec(tree, self_pid, ancestors).contains(a),
        forall|i: int|
            0 <= i < kill_order_spec(tree, self_pid, ancestors).len()
                ==> (#[trigger] kill_order_spec(tree, self_pid, ancestors)[i]) != self_pid
                && !ancestors.contains(kill_order_spec(tree, self_pid, ancestors)[i]),
    decreases tree.len(),
{
    let ko = kill_order_spec(tree, self_pid, ancestors);
    if tree.len() == 0 {
        assert(ko.len() == 0);
    } else {
        lemma_kill_order_safe(tree.drop_first(), self_pid, ancestors);
        let rest = kill_order_spec(tree.drop_first(), self_pid, ancestors);
        let extra: Seq<u32> = if tree[0] != self_pid && !ancestors.contains(tree[0]) {
            seq![tree[0]]
        } else {
            Seq::empty()
        };
        assert(ko == rest + extra);
        assert forall|i: int|
            0 <= i < ko.len() implies (#[trigger] ko[i]) != self_pid && !ancestors.contains(
            ko[i],
        ) by {
            if i < rest.len() {
                assert(ko[i] == rest[i]);
            } else {
                assert(ko[i] == extra[i - rest.len()]);
                assert(ko[i] == tree[0]);
            }
        }
    }
    assert(!ko.contains(self_pid));
    assert forall|a: u32| ancestors.contains(a) implies !ko.contains(a) by {
        if ko.contains(a) {
            let i = choose|i: int| 0 <= i < ko.len() && ko[i] == a;
            assert(!ancestors.contains(ko[i]));
        }
    }
}

/// Computes the kill order for a discovered tree: members in reverse
/// discovery order, skipping the supervisor (`self_pid`) and its
/// ancestors.
pub fn kill_order(tree: &Vec<u32>, self_pid: u32, ancestors: &Vec<u32>) -> (r: Vec<u32>)
    ensures
        r@ == kill_order_spec(tree@, self_pid, ancestors@),
        !r@.contains(self_pid),
        forall|a: u32| ancestors@.contains(a) ==> !r@.contains(a),
{
    let mut r: Vec<u32> = Vec::new();
    let mut i: usize = tree.len();
    while i > 0
        invariant
            i <= tree@.len(),
            r@ == kill_order_spec(
                tree@.subrange(i as int, tree@.len() as int),
                self_pid,
                ancestors@,
            ),
        decreases i,
    {
        i -= 1;
        let ghost rest = tree@.subrange(i as int, tree@.len() as int);
        assert(rest[0] == tree@[i as int]);
        assert(rest.drop_first() =~= tree@.subrange(i + 1, tree@.len() as int));
        let p = tree[i];
        if p != self_pid && !strutil::vec_contains_u32(ancestors, p) {
            let ghost prev = r@;
            r.push(p);
            assert(r@ =~= prev + seq![p]);
        } else {
            assert(r@ =~= r@ + Seq::<u32>::empty());
        }
    }
    assert(tree@.subrange(0, tree@.len() as int) =~= tree@);
    proof {
        lemma_kill_order_safe(tree@, self_pid, ancestors@);
    }
    r
}

/// Whether the post-kill verification of the root may run at all: the
/// root is only re-checked (and force-killed) when it is neither the
/// supervisor nor one of its ancestors, mirroring the skip rule of the
/// kill pass itself.
pub fn should_verify_root(root: u32, self_pid: u32, ancestors: &Vec<u32>) -> (r: bool)
    ensures
        r == (root != self_pid && !ancestors@.contains(root)),
{
    root != self_pid && !strutil::vec_contains_u32(ancestors, root)
}

} // verus!
