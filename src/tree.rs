//! A snapshot of the process table, the parent/child adjacency over it, the
//! discovery of tree roots among matching processes, and subtree membership.
use vstd::prelude::*;

verus! {

/// The pid of the top-level supervisor process; a match directly under it
/// anchors a tree of its own.
pub const SUPERVISOR_PID: u32 = 1;

/// One process of a snapshot, with the links and marks that the analysis adds.
pub struct ProcessInfo {
    pub pid: u32,
    pub name: String,
    /// Resident set size in bytes.
    pub rss: u64,
    pub parent_pid: Option<u32>,
    pub children: Vec<u32>,
    pub is_max_memory: bool,
    pub is_second_max_memory: bool,
    pub is_third_max_memory: bool,
    /// Command line, when it was captured.
    pub args: Option<String>,
}

/// `a` and `b` agree on everything but the child list and the memory marks.
pub open spec fn same_record(a: ProcessInfo, b: ProcessInfo) -> bool {
    &&& a.pid == b.pid
    &&& a.name == b.name
    &&& a.rss == b.rss
    &&& a.parent_pid == b.parent_pid
    &&& a.args == b.args
}

/// `a` and `b` agree on everything but the child list.
pub open spec fn same_but_children(a: ProcessInfo, b: ProcessInfo) -> bool {
    &&& same_record(a, b)
    &&& a.is_max_memory == b.is_max_memory
    &&& a.is_second_max_memory == b.is_second_max_memory
    &&& a.is_third_max_memory == b.is_third_max_memory
}

impl ProcessInfo {
    /// A process with no children, no marks and no command line.
    pub fn new(pid: u32, name: String, rss: u64, parent_pid: Option<u32>) -> (r: ProcessInfo)
        ensures
            r.pid == pid,
            r.name == name,
            r.rss == rss,
            r.parent_pid == parent_pid,
            r.children@ == Seq::<u32>::empty(),
            !r.is_max_memory,
            !r.is_second_max_memory,
            !r.is_third_max_memory,
            r.args is None,
    {
        ProcessInfo {
            pid,
            name,
            rss,
            parent_pid,
            children: Vec::new(),
            is_max_memory: false,
            is_second_max_memory: false,
            is_third_max_memory: false,
            args: None,
        }
    }

    /// Appends `child_pid` to the child list.
    pub fn add_child(&mut self, child_pid: u32)
        ensures
            final(self).children@ == old(self).children@.push(child_pid),
            same_but_children(*final(self), *old(self)),
    {
        self.children.push(child_pid);
    }

    /// A field-by-field copy.
    pub fn duplicate(&self) -> (r: ProcessInfo)
        ensures
            same_but_children(r, *self),
            r.children@ == self.children@,
    {
        let args = match &self.args {
            Some(a) => Some(a.clone()),
            None => None,
        };
        let mut children: Vec<u32> = Vec::new();
        let mut i: usize = 0;
        while i < self.children.len()
            invariant
                i <= self.children@.len(),
                children@ == self.children@.subrange(0, i as int),
            decreases self.children@.len() - i,
        {
            children.push(self.children[i]);
            i += 1;
            assert(children@ =~= self.children@.subrange(0, i as int));
        }
        assert(children@ =~= self.children@);
        ProcessInfo {
            pid: self.pid,
            name: self.name.clone(),
            rss: self.rss,
            parent_pid: self.parent_pid,
            children,
            is_max_memory: self.is_max_memory,
            is_second_max_memory: self.is_second_max_memory,
            is_third_max_memory: self.is_third_max_memory,
            args,
        }
    }
}

/// No two processes of `s` share a pid.
pub open spec fn pids_unique(s: Seq<ProcessInfo>) -> bool {
    forall|i: int, j: int|
        0 <= i < s.len() && 0 <= j < s.len() && #[trigger] s[i].pid == #[trigger] s[j].pid
            ==> i == j
}

/// Some process of `s` has pid `pid`.
pub open spec fn has_pid(s: Seq<ProcessInfo>, pid: u32) -> bool {
    exists|i: int| 0 <= i < s.len() && #[trigger] s[i].pid == pid
}

/// The position of the process with pid `pid` in `s`.
pub open spec fn pid_index(s: Seq<ProcessInfo>, pid: u32) -> int {
    choose|i: int| 0 <= i < s.len() && #[trigger] s[i].pid == pid
}

/// The pids of the processes of `s` whose parent is `p`, in the order of `s`.
pub open spec fn child_pids(s: Seq<ProcessInfo>, p: u32) -> Seq<u32>
    decreases s.len(),
{
    if s.len() == 0 {
        Seq::empty()
    } else {
        let rest = child_pids(s.drop_last(), p);
        if s.last().parent_pid == Some(p) {
            rest.push(s.last().pid)
        } else {
            rest
        }
    }
}

/// The parent of `c`, when both are in the snapshot.
pub open spec fn parent_step(s: Seq<ProcessInfo>, c: u32) -> Option<u32> {
    if has_pid(s, c) {
        match s[pid_index(s, c)].parent_pid {
            Some(q) => if has_pid(s, q) {
                Some(q)
            } else {
                None
            },
            None => None,
        }
    } else {
        None
    }
}

/// The ancestor `k` parent links above `x`, while the links stay in the snapshot.
pub open spec fn up(s: Seq<ProcessInfo>, x: u32, k: nat) -> Option<u32>
    decreases k,
{
    if k == 0 {
        Some(x)
    } else {
        match up(s, x, (k - 1) as nat) {
            Some(c) => parent_step(s, c),
            None => None,
        }
    }
}

/// `x` lies in the subtree under `root`: following child links from `root`
/// (fewer of them than there are processes) leads to `x`.
pub open spec fn in_subtree(s: Seq<ProcessInfo>, root: u32, x: u32) -> bool {
    exists|k: nat| k < s.len() && #[trigger] up(s, x, k) == Some(root)
}

/// A matching pid anchors a tree: it is in the snapshot, and it has no parent,
/// or its parent is no match, is the supervisor, or is not in the snapshot.
pub open spec fn is_root(s: Seq<ProcessInfo>, matching: Seq<u32>, pid: u32) -> bool {
    has_pid(s, pid) && match s[pid_index(s, pid)].parent_pid {
        None => true,
        Some(q) => !matching.contains(q) || q == SUPERVISOR_PID || !has_pid(s, q),
    }
}

/// The pids of `among` that are roots, in order.
pub open spec fn roots_among(s: Seq<ProcessInfo>, matching: Seq<u32>, among: Seq<u32>) -> Seq<u32>
    decreases among.len(),
{
    if among.len() == 0 {
        Seq::empty()
    } else {
        let rest = roots_among(s, matching, among.drop_last());
        if is_root(s, matching, among.last()) {
            rest.push(among.last())
        } else {
            rest
        }
    }
}

/// The roots of `matching`, in order.
pub open spec fn root_pids(s: Seq<ProcessInfo>, matching: Seq<u32>) -> Seq<u32> {
    roots_among(s, matching, matching)
}

/// Child lists depend only on pids and parent pids.
pub proof fn lemma_child_pids_frame(s1: Seq<ProcessInfo>, s2: Seq<ProcessInfo>, p: u32)
    requires
        s1.len() == s2.len(),
        forall|i: int|
            0 <= i < s1.len() ==> #[trigger] s1[i].pid == s2[i].pid && s1[i].parent_pid
                == s2[i].parent_pid,
    ensures
        child_pids(s1, p) == child_pids(s2, p),
    decreases s1.len(),
{
    if s1.len() > 0 {
        let a = s1.drop_last();
        let b = s2.drop_last();
        assert forall|i: int| 0 <= i < a.len() implies #[trigger] a[i].pid == b[i].pid
            && a[i].parent_pid == b[i].parent_pid by {
            assert(a[i] == s1[i] && b[i] == s2[i]);
            assert(s1[i].pid == s2[i].pid);
        }
        lemma_child_pids_frame(a, b, p);
        assert(s1[s1.len() - 1].pid == s2[s1.len() - 1].pid);
    }
}

/// The children of `p` in `procs`.
fn children_of(procs: &Vec<ProcessInfo>, p: u32) -> (r: Vec<u32>)
    ensures
        r@ == child_pids(procs@, p),
{
    let mut r: Vec<u32> = Vec::new();
    let mut j: usize = 0;
    while j < procs.len()
        invariant
            j <= procs@.len(),
            r@ == child_pids(procs@.subrange(0, j as int), p),
        decreases procs@.len() - j,
    {
        assert(procs@.subrange(0, j + 1).drop_last() =~= procs@.subrange(0, j as int));
        if procs[j].parent_pid == Some(p) {
            r.push(procs[j].pid);
        }
        j += 1;
    }
    assert(procs@.subrange(0, procs@.len() as int) =~= procs@);
    r
}

/// Adjacency: `c` is among the children of `p` exactly when some process of
/// the snapshot has pid `c` and parent pid `p`.
pub proof fn lemma_child_iff_parent(s: Seq<ProcessInfo>, p: u32, c: u32)
    ensures
        child_pids(s, p).contains(c) <==> exists|j: int|
            0 <= j < s.len() && #[trigger] s[j].pid == c && s[j].parent_pid == Some(p),
    decreases s.len(),
{
    if s.len() > 0 {
        let t = s.drop_last();
        lemma_child_iff_parent(t, p, c);
        if child_pids(s, p).contains(c) {
            if child_pids(t, p).contains(c) {
                let j = choose|j: int|
                    0 <= j < t.len() && #[trigger] t[j].pid == c && t[j].parent_pid == Some(p);
                assert(s[j] == t[j]);
            } else {
                let k = choose|k: int| 0 <= k < child_pids(s, p).len() && child_pids(s, p)[k] == c;
                assert(s.last().parent_pid == Some(p));
                assert(k == child_pids(t, p).len());
                assert(s[s.len() - 1].pid == c);
            }
        }
        if exists|j: int| 0 <= j < s.len() && #[trigger] s[j].pid == c && s[j].parent_pid == Some(p) {
            let j = choose|j: int|
                0 <= j < s.len() && #[trigger] s[j].pid == c && s[j].parent_pid == Some(p);
            if j < s.len() - 1 {
                assert(t[j] == s[j]);
                let k = choose|k: int| 0 <= k < child_pids(t, p).len() && child_pids(t, p)[k] == c;
                if s.last().parent_pid == Some(p) {
                    assert(child_pids(s, p)[k] == c);
                }
            } else {
                assert(child_pids(s, p)[child_pids(s, p).len() - 1] == c);
            }
        }
    }
}

/// What `roots_among` keeps.
proof fn lemma_roots_among_contains(
    s: Seq<ProcessInfo>,
    matching: Seq<u32>,
    among: Seq<u32>,
    r: u32,
)
    ensures
        roots_among(s, matching, among).contains(r) <==> among.contains(r) && is_root(
            s,
            matching,
            r,
        ),
    decreases among.len(),
{
    if among.len() > 0 {
        let t = among.drop_last();
        lemma_roots_among_contains(s, matching, t, r);
        let rest = roots_among(s, matching, t);
        if roots_among(s, matching, among).contains(r) {
            if rest.contains(r) {
                let j = choose|j: int| 0 <= j < t.len() && t[j] == r;
                assert(among[j] == r);
            } else {
                let k = choose|k: int|
                    0 <= k < roots_among(s, matching, among).len() && roots_among(
                        s,
                        matching,
                        among,
                    )[k] == r;
                assert(k == rest.len());
                assert(among[among.len() - 1] == r);
            }
        }
        if among.contains(r) && is_root(s, matching, r) {
            let j = choose|j: int| 0 <= j < among.len() && among[j] == r;
            if j < among.len() - 1 {
                assert(t[j] == r);
                let k = choose|k: int| 0 <= k < rest.len() && rest[k] == r;
                if is_root(s, matching, among.last()) {
                    assert(roots_among(s, matching, among)[k] == r);
                }
            } else {
                assert(roots_among(s, matching, among)[rest.len() as int] == r);
            }
        }
    }
}

/// Walking `a + b` parent links is walking `a`, then `b` more.
proof fn lemma_up_add(s: Seq<ProcessInfo>, x: u32, a: nat, b: nat)
    ensures
        up(s, x, a + b) == (match up(s, x, a) {
            Some(y) => up(s, y, b),
            None => None,
        }),
    decreases b,
{
    if b > 0 {
        lemma_up_add(s, x, a, (b - 1) as nat);
        assert((a + b - 1) as nat == a + (b - 1) as nat);
    }
}

/// A match whose parent chain leaves the snapshot within `d` links lies,
/// fewer than `d` links down, under some root that is itself a match.
proof fn lemma_reaches_root(s: Seq<ProcessInfo>, matching: Seq<u32>, x: u32, d: nat) -> (rk: (
    u32,
    nat,
))
    requires
        matching.contains(x),
        forall|y: u32| #[trigger] matching.contains(y) ==> has_pid(s, y),
        up(s, x, d) is None,
    ensures
        matching.contains(rk.0),
        is_root(s, matching, rk.0),
        rk.1 < d,
        up(s, x, rk.1) == Some(rk.0),
    decreases d,
{
    if is_root(s, matching, x) {
        assert(d != 0);
        (x, 0)
    } else {
        let q = s[pid_index(s, x)].parent_pid->0;
        assert(parent_step(s, x) == Some(q));
        lemma_up_add(s, x, 1, (d - 1) as nat);
        assert(up(s, x, 0) == Some(x));
        assert(up(s, x, 1) == Some(q));
        let (r, k) = lemma_reaches_root(s, matching, q, (d - 1) as nat);
        lemma_up_add(s, x, 1, k);
        assert(1 + k == k + 1);
        (r, k + 1)
    }
}

/// Roots partition the matches: when no chain of parent links above a match
/// runs in a cycle and no root lies in the subtree of another root, every
/// match lies in the subtree of one root and of no other.
pub proof fn lemma_roots_partition_matches(s: Seq<ProcessInfo>, matching: Seq<u32>, m: u32)
    requires
        matching.contains(m),
        forall|y: u32| #[trigger] matching.contains(y) ==> has_pid(s, y),
        forall|y: u32| #[trigger] matching.contains(y) ==> up(s, y, s.len()) is None,
        forall|r1: u32, r2: u32|
            #[trigger] root_pids(s, matching).contains(r1) && #[trigger] root_pids(
                s,
                matching,
            ).contains(r2) && r1 != r2 ==> !in_subtree(s, r2, r1),
    ensures
        exists|r: u32| #[trigger] root_pids(s, matching).contains(r) && in_subtree(s, r, m),
        forall|r1: u32, r2: u32|
            #[trigger] root_pids(s, matching).contains(r1) && #[trigger] root_pids(
                s,
                matching,
            ).contains(r2) && in_subtree(s, r1, m) && in_subtree(s, r2, m) ==> r1 == r2,
{
    let (r, k) = lemma_reaches_root(s, matching, m, s.len());
    lemma_roots_among_contains(s, matching, matching, r);
    assert(in_subtree(s, r, m));
    assert(root_pids(s, matching).contains(r));
    assert forall|r1: u32, r2: u32|
        #[trigger] root_pids(s, matching).contains(r1) && #[trigger] root_pids(
            s,
            matching,
        ).contains(r2) && in_subtree(s, r1, m) && in_subtree(s, r2, m) implies r1 == r2 by {
        let k1 = choose|k1: nat| k1 < s.len() && #[trigger] up(s, m, k1) == Some(r1);
        let k2 = choose|k2: nat| k2 < s.len() && #[trigger] up(s, m, k2) == Some(r2);
        if r1 != r2 {
            if k1 <= k2 {
                lemma_up_add(s, m, k1, (k2 - k1) as nat);
                assert(k1 + (k2 - k1) as nat == k2);
                assert(up(s, r1, (k2 - k1) as nat) == Some(r2));
                assert(in_subtree(s, r2, r1));
            } else {
                lemma_up_add(s, m, k2, (k1 - k2) as nat);
                assert(k2 + (k1 - k2) as nat == k1);
                assert(up(s, r2, (k1 - k2) as nat) == Some(r1));
                assert(in_subtree(s, r1, r2));
            }
        }
    }
}

/// Subtree membership depends only on pids and parent pids.
pub proof fn lemma_subtree_frame(s1: Seq<ProcessInfo>, s2: Seq<ProcessInfo>, root: u32, x: u32)
    requires
        s1.len() == s2.len(),
        pids_unique(s2),
        forall|i: int|
            0 <= i < s1.len() ==> #[trigger] s1[i].pid == s2[i].pid && s1[i].parent_pid
                == s2[i].parent_pid,
    ensures
        in_subtree(s1, root, x) == in_subtree(s2, root, x),
{
    lemma_lookup_frame(s1, s2);
    assert forall|c: u32| #[trigger] parent_step(s1, c) == parent_step(s2, c) by {
        if has_pid(s1, c) {
            let i = pid_index(s1, c);
            assert(s1[i].pid == s2[i].pid);
        }
    }
    assert forall|k: nat| #[trigger] up(s1, x, k) == up(s2, x, k) by {
        lemma_up_frame(s1, s2, x, k);
    }
    if in_subtree(s1, root, x) {
        let k = choose|k: nat| k < s1.len() && #[trigger] up(s1, x, k) == Some(root);
        assert(up(s2, x, k) == Some(root));
    }
    if in_subtree(s2, root, x) {
        let k = choose|k: nat| k < s2.len() && #[trigger] up(s2, x, k) == Some(root);
        assert(up(s1, x, k) == Some(root));
    }
}

proof fn lemma_up_frame(s1: Seq<ProcessInfo>, s2: Seq<ProcessInfo>, x: u32, k: nat)
    requires
        forall|c: u32| #[trigger] parent_step(s1, c) == parent_step(s2, c),
    ensures
        up(s1, x, k) == up(s2, x, k),
    decreases k,
{
    if k > 0 {
        lemma_up_frame(s1, s2, x, (k - 1) as nat);
    }
}

/// Lookups by pid depend only on the pids.
pub proof fn lemma_lookup_frame(s1: Seq<ProcessInfo>, s2: Seq<ProcessInfo>)
    requires
        s1.len() == s2.len(),
        pids_unique(s2),
        forall|i: int|
            0 <= i < s1.len() ==> #[trigger] s1[i].pid == s2[i].pid && s1[i].parent_pid
                == s2[i].parent_pid,
    ensures
        forall|c: u32| #[trigger] has_pid(s1, c) == has_pid(s2, c),
        forall|c: u32| has_pid(s1, c) ==> #[trigger] pid_index(s1, c) == pid_index(s2, c),
{
    assert forall|c: u32| #[trigger] has_pid(s1, c) == has_pid(s2, c) by {
        if has_pid(s1, c) {
            let i = choose|i: int| 0 <= i < s1.len() && #[trigger] s1[i].pid == c;
            assert(s2[i].pid == c);
        }
        if has_pid(s2, c) {
            let i = choose|i: int| 0 <= i < s2.len() && #[trigger] s2[i].pid == c;
            assert(s1[i].pid == c);
        }
    }
    assert forall|c: u32| has_pid(s1, c) implies #[trigger] pid_index(s1, c) == pid_index(
        s2,
        c,
    ) by {
        let i1 = pid_index(s1, c);
        let i2 = pid_index(s2, c);
        assert(s1[i1].pid == s2[i1].pid);
    }
}

/// Once the chain of parents leaves the snapshot it stays out.
proof fn lemma_up_stays_none(s: Seq<ProcessInfo>, x: u32, k: nat, j: nat)
    requires
        up(s, x, k) is None,
        k <= j,
    ensures
        up(s, x, j) is None,
    decreases j - k,
{
    if k < j {
        lemma_up_stays_none(s, x, k, (j - 1) as nat);
    }
}

/// Whether `v` holds `x`.
pub(crate) fn vec_contains(v: &Vec<u32>, x: u32) -> (r: bool)
    ensures
        r == v@.contains(x),
{
    let mut i: usize = 0;
    while i < v.len()
        invariant
            i <= v@.len(),
            forall|k: int| 0 <= k < i ==> v@[k] != x,
        decreases v@.len() - i,
    {
        if v[i] == x {
            assert(v@[i as int] == x);
            return true;
        }
        i += 1;
    }
    false
}

/// Whether `v` holds `x`.
pub(crate) fn vec_contains_u64(v: &Vec<u64>, x: u64) -> (r: bool)
    ensures
        r == v@.contains(x),
{
    let mut i: usize = 0;
    while i < v.len()
        invariant
            i <= v@.len(),
            forall|k: int| 0 <= k < i ==> v@[k] != x,
        decreases v@.len() - i,
    {
        if v[i] == x {
            assert(v@[i as int] == x);
            return true;
        }
        i += 1;
    }
    false
}

/// A snapshot of the process table: each process once, keyed by pid.
pub struct ProcessTable {
    procs: Vec<ProcessInfo>,
}

impl View for ProcessTable {
    type V = Seq<ProcessInfo>;

    closed spec fn view(&self) -> Seq<ProcessInfo> {
        self.procs@
    }
}

impl ProcessTable {
    /// The table holds each pid once.
    pub open spec fn wf(&self) -> bool {
        pids_unique(self@)
    }

    /// An empty table.
    pub fn new() -> (r: ProcessTable)
        ensures
            r@ == Seq::<ProcessInfo>::empty(),
            r.wf(),
    {
        ProcessTable { procs: Vec::new() }
    }

    /// The number of processes.
    pub fn len(&self) -> (r: usize)
        ensures
            r == self@.len(),
    {
        self.procs.len()
    }

    /// The process at position `i`.
    pub fn get(&self, i: usize) -> (r: &ProcessInfo)
        requires
            i < self@.len(),
        ensures
            *r == self@[i as int],
    {
        &self.procs[i]
    }

    /// The position of the process with pid `pid`, if there is one.
    pub fn index_of(&self, pid: u32) -> (r: Option<usize>)
        requires
            self.wf(),
        ensures
            match r {
                Some(i) => {
                    &&& i < self@.len()
                    &&& self@[i as int].pid == pid
                    &&& has_pid(self@, pid)
                    &&& pid_index(self@, pid) == i as int
                },
                None => !has_pid(self@, pid),
            },
    {
        let mut i: usize = 0;
        while i < self.procs.len()
            invariant
                i <= self@.len(),
                self@ == self.procs@,
                self.wf(),
                forall|k: int| 0 <= k < i ==> #[trigger] self@[k].pid != pid,
            decreases self@.len() - i,
        {
            if self.procs[i].pid == pid {
                proof {
                    assert(has_pid(self@, pid));
                    let j = pid_index(self@, pid);
                    assert(self@[j].pid == self@[i as int].pid);
                    assert(j == i);
                }
                return Some(i);
            }
            i += 1;
        }
        None
    }

    /// Whether some process has pid `pid`.
    pub fn contains_pid(&self, pid: u32) -> (r: bool)
        requires
            self.wf(),
        ensures
            r == has_pid(self@, pid),
    {
        self.index_of(pid).is_some()
    }

    /// Adds `info`, replacing the process with the same pid if there is one.
    pub fn insert(&mut self, info: ProcessInfo)
        requires
            old(self).wf(),
        ensures
            final(self).wf(),
            final(self)@ == (if has_pid(old(self)@, info.pid) {
                old(self)@.update(pid_index(old(self)@, info.pid), info)
            } else {
                old(self)@.push(info)
            }),
    {
        let ghost pid = info.pid;
        match self.index_of(info.pid) {
            Some(i) => {
                self.procs.set(i, info);
                proof {
                    assert forall|a: int, b: int|
                        0 <= a < self@.len() && 0 <= b < self@.len() && #[trigger] self@[a].pid
                            == #[trigger] self@[b].pid implies a == b by {
                        if a != i && b != i {
                            assert(old(self)@[a].pid == old(self)@[b].pid);
                        } else if a != i {
                            assert(old(self)@[a].pid == old(self)@[i as int].pid);
                        } else if b != i {
                            assert(old(self)@[b].pid == old(self)@[i as int].pid);
                        }
                    }
                }
            },
            None => {
                self.procs.push(info);
                proof {
                    assert forall|a: int, b: int|
                        0 <= a < self@.len() && 0 <= b < self@.len() && #[trigger] self@[a].pid
                            == #[trigger] self@[b].pid implies a == b by {
                        if a < old(self)@.len() && b < old(self)@.len() {
                            assert(old(self)@[a].pid == old(self)@[b].pid);
                        } else if a < old(self)@.len() {
                            assert(old(self)@[a].pid == pid);
                        } else if b < old(self)@.len() {
                            assert(old(self)@[b].pid == pid);
                        }
                    }
                }
            },
        }
    }

    /// Removes the process with pid `pid`, if there is one, and hands it back.
    pub fn remove(&mut self, pid: u32) -> (r: Option<ProcessInfo>)
        requires
            old(self).wf(),
        ensures
            final(self).wf(),
            has_pid(old(self)@, pid) ==> r == Some(old(self)@[pid_index(old(self)@, pid)])
                && final(self)@ == old(self)@.remove(pid_index(old(self)@, pid)),
            !has_pid(old(self)@, pid) ==> r is None && final(self)@ == old(self)@,
    {
        match self.index_of(pid) {
            Some(i) => {
                let info = self.procs.remove(i);
                proof {
                    assert forall|a: int, b: int|
                        0 <= a < self@.len() && 0 <= b < self@.len() && #[trigger] self@[a].pid
                            == #[trigger] self@[b].pid implies a == b by {
                        let oa = if a < i { a } else { a + 1 };
                        let ob = if b < i { b } else { b + 1 };
                        assert(old(self)@[oa].pid == old(self)@[ob].pid);
                    }
                }
                Some(info)
            },
            None => None,
        }
    }

    /// Rebuilds every child list from the parent pids: the children of a
    /// process are the processes whose parent it is, in table order.
    pub fn build_children(&mut self)
        requires
            old(self).wf(),
        ensures
            final(self).wf(),
            final(self)@.len() == old(self)@.len(),
            forall|i: int|
                0 <= i < old(self)@.len() ==> same_but_children(
                    #[trigger] final(self)@[i],
                    old(self)@[i],
                ) && final(self)@[i].children@ == child_pids(old(self)@, old(self)@[i].pid),
    {
        let n = self.procs.len();
        let mut i: usize = 0;
        while i < n
            invariant
                i <= n,
                n == old(self)@.len(),
                self.procs@.len() == n,
                forall|k: int|
                    0 <= k < n ==> same_but_children(
                        #[trigger] self.procs@[k],
                        old(self).procs@[k],
                    ),
                forall|k: int|
                    0 <= k < i ==> (#[trigger] self.procs@[k]).children@ == child_pids(
                        old(self)@,
                        old(self)@[k].pid,
                    ),
            decreases n - i,
        {
            let p = self.procs[i].pid;
            let c = children_of(&self.procs, p);
            proof {
                assert forall|k: int| 0 <= k < n implies #[trigger] self.procs@[k].pid
                    == old(self).procs@[k].pid && self.procs@[k].parent_pid
                    == old(self).procs@[k].parent_pid by {
                    assert(same_but_children(self.procs@[k], old(self).procs@[k]));
                }
                lemma_child_pids_frame(self.procs@, old(self).procs@, p);
            }
            self.procs[i].children = c;
            i += 1;
        }
        proof {
            assert forall|a: int, b: int|
                0 <= a < self@.len() && 0 <= b < self@.len() && #[trigger] self@[a].pid
                    == #[trigger] self@[b].pid implies a == b by {
                assert(same_but_children(self.procs@[a], old(self).procs@[a]));
                assert(same_but_children(self.procs@[b], old(self).procs@[b]));
                assert(old(self)@[a].pid == old(self)@[b].pid);
            }
        }
    }

    /// Rebuilds the child lists and hands back a copy of the process `root_pid`;
    /// `None`, with the table untouched, when no process has that pid.
    pub fn build_process_tree(&mut self, root_pid: u32) -> (r: Option<ProcessInfo>)
        requires
            old(self).wf(),
        ensures
            final(self).wf(),
            !has_pid(old(self)@, root_pid) ==> r is None && final(self)@ == old(self)@,
            has_pid(old(self)@, root_pid) ==> {
                &&& final(self)@.len() == old(self)@.len()
                &&& forall|i: int|
                    0 <= i < old(self)@.len() ==> same_but_children(
                        #[trigger] final(self)@[i],
                        old(self)@[i],
                    ) && final(self)@[i].children@ == child_pids(old(self)@, old(self)@[i].pid)
                &&& r matches Some(info) && same_but_children(
                    info,
                    old(self)@[pid_index(old(self)@, root_pid)],
                ) && info.children@ == child_pids(old(self)@, root_pid)
            },
    {
        match self.index_of(root_pid) {
            None => None,
            Some(i) => {
                proof {
                    let j = pid_index(old(self)@, root_pid);
                    assert(old(self)@[j].pid == root_pid);
                }
                self.build_children();
                Some(self.procs[i].duplicate())
            },
        }
    }

    /// The roots among `matching_pids`, in their order.
    pub fn find_root_processes(&self, matching_pids: &Vec<u32>) -> (r: Vec<u32>)
        requires
            self.wf(),
        ensures
            r@ == root_pids(self@, matching_pids@),
    {
        let ghost m = matching_pids@;
        let mut r: Vec<u32> = Vec::new();
        let mut i: usize = 0;
        while i < matching_pids.len()
            invariant
                self.wf(),
                i <= m.len(),
                m == matching_pids@,
                r@ == roots_among(self@, m, m.subrange(0, i as int)),
            decreases m.len() - i,
        {
            assert(m.subrange(0, i + 1).drop_last() =~= m.subrange(0, i as int));
            let pid = matching_pids[i];
            match self.index_of(pid) {
                None => {},
                Some(k) => {
                    let root = match self.procs[k].parent_pid {
                        None => true,
                        Some(q) => !vec_contains(matching_pids, q) || q == SUPERVISOR_PID
                            || !self.contains_pid(q),
                    };
                    if root {
                        r.push(pid);
                    }
                },
            }
            i += 1;
        }
        assert(m.subrange(0, m.len() as int) =~= m);
        r
    }

    /// Whether `x` lies in the subtree under `root`.
    pub fn is_in_subtree(&self, root: u32, x: u32) -> (r: bool)
        requires
            self.wf(),
        ensures
            r == in_subtree(self@, root, x),
    {
        let n = self.procs.len();
        let mut cur: u32 = x;
        let mut k: usize = 0;
        while k < n
            invariant
                self.wf(),
                n == self@.len(),
                k <= n,
                up(self@, x, k as nat) == Some(cur),
                forall|j: nat| j < k ==> #[trigger] up(self@, x, j) != Some(root),
            decreases n - k,
        {
            if cur == root {
                return true;
            }
            let next = match self.index_of(cur) {
                None => None,
                Some(c) => match self.procs[c].parent_pid {
                    None => None,
                    Some(q) => if self.contains_pid(q) {
                        Some(q)
                    } else {
                        None
                    },
                },
            };
            assert(up(self@, x, (k + 1) as nat) == next);
            match next {
                None => {
                    proof {
                        assert forall|j: nat| j < n implies #[trigger] up(self@, x, j) != Some(
                            root,
                        ) by {
                            if j > k {
                                lemma_up_stays_none(self@, x, (k + 1) as nat, j);
                            }
                        }
                    }
                    return false;
                },
                Some(q) => {
                    cur = q;
                },
            }
            k += 1;
        }
        false
    }

    /// Sets the memory marks of the process at position `i`.
    pub fn set_memory_marks(&mut self, i: usize, first: bool, second: bool, third: bool)
        requires
            old(self).wf(),
            i < old(self)@.len(),
        ensures
            final(self).wf(),
            final(self)@.len() == old(self)@.len(),
            forall|k: int|
                0 <= k < old(self)@.len() && k != i ==> #[trigger] final(self)@[k] == old(self)@[k],
            same_record(final(self)@[i as int], old(self)@[i as int]),
            final(self)@[i as int].children == old(self)@[i as int].children,
            final(self)@[i as int].is_max_memory == first,
            final(self)@[i as int].is_second_max_memory == second,
            final(self)@[i as int].is_third_max_memory == third,
    {
        self.procs[i].is_max_memory = first;
        self.procs[i].is_second_max_memory = second;
        self.procs[i].is_third_max_memory = third;
        proof {
            assert forall|a: int, b: int|
                0 <= a < self@.len() && 0 <= b < self@.len() && #[trigger] self@[a].pid
                    == #[trigger] self@[b].pid implies a == b by {
                assert(old(self)@[a].pid == old(self)@[b].pid);
            }
        }
    }
}

} // verus!
