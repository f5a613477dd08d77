//! Per-tree reductions over a snapshot: the memory of each process of a
//! subtree, its total, count and average, the three largest distinct values
//! and the marks that broadcast them to every process holding them.
use vstd::prelude::*;
use crate::matcher::{is_process_matching, lower_of, name_matches, without_spaces};
use crate::tree::{
    child_pids,
    has_pid,
    in_subtree,
    lemma_child_pids_frame,
    lemma_lookup_frame,
    root_pids,
    lemma_subtree_frame,
    pids_unique,
    same_record,
    ProcessInfo,
    ProcessTable,
};

verus! {

/// Width of the name column; longer names are shortened to fit it.
pub const NAME_COLUMN_WIDTH: usize = 40;

/// The resident memory of the processes among the first `n` of `s` that lie
/// in the subtree under `root`, in table order.
pub open spec fn rss_upto(s: Seq<ProcessInfo>, root: u32, n: int) -> Seq<u64>
    decreases n,
{
    if n <= 0 {
        Seq::empty()
    } else {
        let rest = rss_upto(s, root, n - 1);
        if in_subtree(s, root, s[n - 1].pid) {
            rest.push(s[n - 1].rss)
        } else {
            rest
        }
    }
}

/// The pids of the processes among the first `n` of `s` that lie in the
/// subtree under `root`, in table order.
pub open spec fn pids_upto(s: Seq<ProcessInfo>, root: u32, n: int) -> Seq<u32>
    decreases n,
{
    if n <= 0 {
        Seq::empty()
    } else {
        let rest = pids_upto(s, root, n - 1);
        if in_subtree(s, root, s[n - 1].pid) {
            rest.push(s[n - 1].pid)
        } else {
            rest
        }
    }
}

/// The resident memory of each process of the subtree under `root`.
pub open spec fn tree_rss(s: Seq<ProcessInfo>, root: u32) -> Seq<u64> {
    rss_upto(s, root, s.len() as int)
}

/// The pids of the subtree under `root`.
pub open spec fn tree_pids(s: Seq<ProcessInfo>, root: u32) -> Seq<u32> {
    pids_upto(s, root, s.len() as int)
}

/// The sum of `v`.
pub open spec fn seq_sum(v: Seq<u64>) -> int
    decreases v.len(),
{
    if v.len() == 0 {
        0
    } else {
        seq_sum(v.drop_last()) + v.last()
    }
}

/// The largest value of `v` that `ex` does not hold; 0 when there is none.
pub open spec fn max_excluding(v: Seq<u64>, ex: Seq<u64>) -> u64
    decreases v.len(),
{
    if v.len() == 0 {
        0
    } else {
        let m = max_excluding(v.drop_last(), ex);
        if ex.contains(v.last()) || v.last() <= m {
            m
        } else {
            v.last()
        }
    }
}

/// The three largest distinct values of `v`, each 0 where there is none.
pub open spec fn top_three(v: Seq<u64>) -> (u64, u64, u64) {
    let m1 = max_excluding(v, Seq::empty());
    let m2 = max_excluding(v, seq![m1]);
    let m3 = max_excluding(v, seq![m1, m2]);
    (m1, m2, m3)
}

/// The number of decimal digits of `n`.
pub open spec fn decimal_digits(n: u32) -> nat {
    if n < 10 {
        1
    } else if n < 100 {
        2
    } else if n < 1000 {
        3
    } else if n < 10000 {
        4
    } else if n < 100000 {
        5
    } else if n < 1000000 {
        6
    } else if n < 10000000 {
        7
    } else if n < 100000000 {
        8
    } else if n < 1000000000 {
        9
    } else {
        10
    }
}

/// The largest number of decimal digits among `pids`; 0 when it is empty.
pub open spec fn max_digits(pids: Seq<u32>) -> nat
    decreases pids.len(),
{
    if pids.len() == 0 {
        0
    } else {
        let m = max_digits(pids.drop_last());
        let d = decimal_digits(pids.last());
        if d > m {
            d
        } else {
            m
        }
    }
}

/// The marks of `new` are those of `old` once the values `m1`, `m2`, `m3`
/// were broadcast: memory equal to `m1` marks first; otherwise equal to a
/// non-zero `m2` marks second; otherwise equal to a non-zero `m3` marks third.
pub open spec fn marks_after(old: ProcessInfo, new: ProcessInfo, m1: u64, m2: u64, m3: u64) -> bool {
    let first = old.rss == m1;
    let second = !first && old.rss == m2 && m2 > 0;
    let third = !first && !second && old.rss == m3 && m3 > 0;
    &&& new.is_max_memory == (old.is_max_memory || first)
    &&& new.is_second_max_memory == (old.is_second_max_memory || second)
    &&& new.is_third_max_memory == (old.is_third_max_memory || third)
}

/// `a` and `b` carry the same memory marks.
pub open spec fn same_marks(a: ProcessInfo, b: ProcessInfo) -> bool {
    &&& a.is_max_memory == b.is_max_memory
    &&& a.is_second_max_memory == b.is_second_max_memory
    &&& a.is_third_max_memory == b.is_third_max_memory
}

/// The marks that memory `rss` earns against the top values `t`.
pub open spec fn rank_marks(rss: u64, t: (u64, u64, u64)) -> (bool, bool, bool) {
    let first = rss == t.0;
    let second = !first && rss == t.1 && t.1 > 0;
    let third = !first && !second && rss == t.2 && t.2 > 0;
    (first, second, third)
}

/// The marks that the trees under `roots` give process `p` of `s`, each tree
/// ranking its own memory values.
pub open spec fn marks_by_roots(s: Seq<ProcessInfo>, roots: Seq<u32>, p: ProcessInfo) -> (
    bool,
    bool,
    bool,
)
    decreases roots.len(),
{
    if roots.len() == 0 {
        (false, false, false)
    } else {
        let rest = marks_by_roots(s, roots.drop_last(), p);
        let r = roots.last();
        let m = if has_pid(s, r) && in_subtree(s, r, p.pid) {
            rank_marks(p.rss, top_three(tree_rss(s, r)))
        } else {
            (false, false, false)
        };
        (rest.0 || m.0, rest.1 || m.1, rest.2 || m.2)
    }
}

/// Some of `roots` is in `s`.
pub open spec fn any_root_present(s: Seq<ProcessInfo>, roots: Seq<u32>) -> bool {
    exists|j: int| 0 <= j < roots.len() && has_pid(s, #[trigger] roots[j])
}

/// `new` is `old` after the trees under `roots` were built and marked.
pub open spec fn after_roots(s: Seq<ProcessInfo>, roots: Seq<u32>, old: ProcessInfo, new: ProcessInfo) -> bool {
    let m = marks_by_roots(s, roots, old);
    &&& same_record(new, old)
    &&& new.children@ == (if any_root_present(s, roots) {
        child_pids(s, old.pid)
    } else {
        old.children@
    })
    &&& new.is_max_memory == (old.is_max_memory || m.0)
    &&& new.is_second_max_memory == (old.is_second_max_memory || m.1)
    &&& new.is_third_max_memory == (old.is_third_max_memory || m.2)
}

/// What `s` tells of the subtree under `root`.
pub struct TreeSummary {
    pub root_pid: u32,
    pub process_count: usize,
    pub total_memory: u128,
    pub average_memory: u128,
    pub max_memory: u64,
    /// 0 when no second value exists.
    pub second_max_memory: u64,
    /// 0 when no third value exists.
    pub third_max_memory: u64,
    pub pid_width: usize,
    pub name_width: usize,
}

/// `total / count`, or 0 for no processes.
pub open spec fn average_of(total: int, count: int) -> int {
    if count == 0 {
        0
    } else {
        total / count
    }
}

/// The summary of the subtree under `root`, or `None` when `root` is not in `s`.
pub open spec fn tree_summary(s: Seq<ProcessInfo>, root: u32) -> Option<TreeSummary> {
    if has_pid(s, root) {
        let v = tree_rss(s, root);
        let t = top_three(v);
        Some(
            TreeSummary {
                root_pid: root,
                process_count: v.len() as usize,
                total_memory: seq_sum(v) as u128,
                average_memory: average_of(seq_sum(v), v.len() as int) as u128,
                max_memory: t.0,
                second_max_memory: t.1,
                third_max_memory: t.2,
                pid_width: max_digits(tree_pids(s, root)) as usize,
                name_width: NAME_COLUMN_WIDTH,
            },
        )
    } else {
        None
    }
}

/// The reductions over a subtree depend only on the records, not on child
/// lists or marks.
pub proof fn lemma_tree_frame(s1: Seq<ProcessInfo>, s2: Seq<ProcessInfo>, root: u32, n: int)
    requires
        s1.len() == s2.len(),
        pids_unique(s2),
        n <= s1.len(),
        forall|i: int| 0 <= i < s1.len() ==> same_record(#[trigger] s1[i], s2[i]),
    ensures
        rss_upto(s1, root, n) == rss_upto(s2, root, n),
        pids_upto(s1, root, n) == pids_upto(s2, root, n),
    decreases n,
{
    if n > 0 {
        lemma_tree_frame(s1, s2, root, n - 1);
        assert forall|i: int| 0 <= i < s1.len() implies #[trigger] s1[i].pid == s2[i].pid
            && s1[i].parent_pid == s2[i].parent_pid by {
            assert(same_record(s1[i], s2[i]));
        }
        assert(same_record(s1[n - 1], s2[n - 1]));
        lemma_subtree_frame(s1, s2, root, s1[n - 1].pid);
    }
}

/// The summary of a subtree depends only on the records.
pub proof fn lemma_summary_frame(s1: Seq<ProcessInfo>, s2: Seq<ProcessInfo>, root: u32)
    requires
        s1.len() == s2.len(),
        pids_unique(s2),
        forall|i: int| 0 <= i < s1.len() ==> same_record(#[trigger] s1[i], s2[i]),
    ensures
        tree_summary(s1, root) == tree_summary(s2, root),
{
    lemma_tree_frame(s1, s2, root, s1.len() as int);
    assert forall|i: int| 0 <= i < s1.len() implies #[trigger] s1[i].pid == s2[i].pid
        && s1[i].parent_pid == s2[i].parent_pid by {
        assert(same_record(s1[i], s2[i]));
    }
    lemma_lookup_frame(s1, s2);
}

/// Whether process name `name` matches `query`, without regard to case.
pub open spec fn query_matches(name: Seq<char>, query: Seq<char>) -> bool {
    name_matches(lower_of(name), lower_of(query), lower_of(without_spaces(query)), query.contains(' '))
}

/// The pids among the first `n` processes of `s` whose names match `query`.
pub open spec fn matching_upto(s: Seq<ProcessInfo>, query: Seq<char>, n: int) -> Seq<u32>
    decreases n,
{
    if n <= 0 {
        Seq::empty()
    } else {
        let rest = matching_upto(s, query, n - 1);
        if query_matches(s[n - 1].name@, query) {
            rest.push(s[n - 1].pid)
        } else {
            rest
        }
    }
}

/// The pids of the processes of `s` whose names match `query`, in table order.
pub open spec fn matching_pids(s: Seq<ProcessInfo>, query: Seq<char>) -> Seq<u32> {
    matching_upto(s, query, s.len() as int)
}

/// The outcome of one analysis pass.
pub enum Analysis {
    /// No process matched the query.
    NoMatch,
    /// Processes matched, but none of them anchors a tree.
    NoRoot { matching: Vec<u32> },
    /// The matches, the roots among them, and for each root its summary, or
    /// `None` where the root could not be found in the table.
    Trees { matching: Vec<u32>, roots: Vec<u32>, reports: Vec<Option<TreeSummary>> },
}

/// The three largest distinct values of `values`, each 0 where there is none.
pub fn top_three_memory(values: &Vec<u64>) -> (r: (u64, u64, u64))
    ensures
        r == top_three(values@),
{
    let none: Vec<u64> = Vec::new();
    let m1 = max_except(values, &none);
    let one = vec![m1];
    let m2 = max_except(values, &one);
    let two = vec![m1, m2];
    let m3 = max_except(values, &two);
    assert(none@ =~= Seq::<u64>::empty());
    assert(one@ =~= seq![m1]);
    assert(two@ =~= seq![m1, m2]);
    (m1, m2, m3)
}

/// The largest value of `v` that `ex` does not hold; 0 when there is none.
fn max_except(v: &Vec<u64>, ex: &Vec<u64>) -> (r: u64)
    ensures
        r == max_excluding(v@, ex@),
{
    let mut m: u64 = 0;
    let mut i: usize = 0;
    while i < v.len()
        invariant
            i <= v@.len(),
            m == max_excluding(v@.subrange(0, i as int), ex@),
        decreases v@.len() - i,
    {
        assert(v@.subrange(0, i + 1).drop_last() =~= v@.subrange(0, i as int));
        let x = v[i];
        if !crate::tree::vec_contains_u64(ex, x) && x > m {
            m = x;
        }
        i += 1;
    }
    assert(v@.subrange(0, v@.len() as int) =~= v@);
    m
}

/// `total / count`, or 0 for no processes.
pub fn average_memory(total: u128, count: usize) -> (r: u128)
    ensures
        r == average_of(total as int, count as int),
{
    if count == 0 {
        0
    } else {
        total / (count as u128)
    }
}

/// The number of decimal digits of `n`.
fn digits(n: u32) -> (r: usize)
    ensures
        r == decimal_digits(n),
{
    if n < 10 {
        1
    } else if n < 100 {
        2
    } else if n < 1000 {
        3
    } else if n < 10000 {
        4
    } else if n < 100000 {
        5
    } else if n < 1000000 {
        6
    } else if n < 10000000 {
        7
    } else if n < 100000000 {
        8
    } else if n < 1000000000 {
        9
    } else {
        10
    }
}

impl ProcessTable {
    /// For each process, whether it lies in the subtree under `root`.
    fn membership(&self, root: u32) -> (r: Vec<bool>)
        requires
            self.wf(),
        ensures
            r@.len() == self@.len(),
            forall|i: int|
                0 <= i < self@.len() ==> #[trigger] r@[i] == in_subtree(self@, root, self@[i].pid),
    {
        let n = self.len();
        let mut r: Vec<bool> = Vec::new();
        let mut i: usize = 0;
        while i < n
            invariant
                self.wf(),
                n == self@.len(),
                i <= n,
                r@.len() == i,
                forall|k: int|
                    0 <= k < i ==> #[trigger] r@[k] == in_subtree(self@, root, self@[k].pid),
            decreases n - i,
        {
            r.push(self.is_in_subtree(root, self.get(i).pid));
            i += 1;
        }
        r
    }

    /// The pids of the subtree under `root_pid`, in table order.
    pub fn collect_process_ids_in_tree(&self, root_pid: u32) -> (r: Vec<u32>)
        requires
            self.wf(),
        ensures
            r@ == tree_pids(self@, root_pid),
    {
        let n = self.len();
        let mut r: Vec<u32> = Vec::new();
        let mut i: usize = 0;
        while i < n
            invariant
                self.wf(),
                n == self@.len(),
                i <= n,
                r@ == pids_upto(self@, root_pid, i as int),
            decreases n - i,
        {
            let pid = self.get(i).pid;
            if self.is_in_subtree(root_pid, pid) {
                r.push(pid);
            }
            i += 1;
        }
        r
    }

    /// The resident memory of each process of the subtree under `root_pid`,
    /// in table order.
    pub fn collect_all_rss_in_tree(&self, root_pid: u32) -> (r: Vec<u64>)
        requires
            self.wf(),
        ensures
            r@ == tree_rss(self@, root_pid),
    {
        let n = self.len();
        let mut r: Vec<u64> = Vec::new();
        let mut i: usize = 0;
        while i < n
            invariant
                self.wf(),
                n == self@.len(),
                i <= n,
                r@ == rss_upto(self@, root_pid, i as int),
            decreases n - i,
        {
            let p = self.get(i);
            if self.is_in_subtree(root_pid, p.pid) {
                r.push(p.rss);
            }
            i += 1;
        }
        r
    }

    /// The number of processes in the subtree under `root_pid`.
    pub fn count_processes(&self, root_pid: u32) -> (r: usize)
        requires
            self.wf(),
        ensures
            r == tree_rss(self@, root_pid).len(),
    {
        let n = self.len();
        let mut count: usize = 0;
        let mut i: usize = 0;
        while i < n
            invariant
                self.wf(),
                n == self@.len(),
                i <= n,
                count <= i,
                count == rss_upto(self@, root_pid, i as int).len(),
            decreases n - i,
        {
            if self.is_in_subtree(root_pid, self.get(i).pid) {
                count += 1;
            }
            i += 1;
        }
        count
    }

    /// The total resident memory of the subtree under `root_pid`.
    pub fn calculate_total_memory(&self, root_pid: u32) -> (r: u128)
        requires
            self.wf(),
        ensures
            r == seq_sum(tree_rss(self@, root_pid)),
    {
        let n = self.len();
        let mut total: u128 = 0;
        let mut i: usize = 0;
        while i < n
            invariant
                self.wf(),
                n == self@.len(),
                i <= n,
                total == seq_sum(rss_upto(self@, root_pid, i as int)),
                total <= i * 0xFFFF_FFFF_FFFF_FFFFu128,
            decreases n - i,
        {
            let p = self.get(i);
            if self.is_in_subtree(root_pid, p.pid) {
                let ghost rest = rss_upto(self@, root_pid, i as int);
                assert(rest.push(p.rss).drop_last() =~= rest);
                assert(total + p.rss <= (i + 1) * 0xFFFF_FFFF_FFFF_FFFFu128) by (nonlinear_arith)
                    requires
                        total <= i * 0xFFFF_FFFF_FFFF_FFFFu128,
                        p.rss <= 0xFFFF_FFFF_FFFF_FFFFu64,
                ;
                assert((i + 1) * 0xFFFF_FFFF_FFFF_FFFFu128 <= 0x1_0000_0000_0000_0000 * 0xFFFF_FFFF_FFFF_FFFFu128)
                    by (nonlinear_arith)
                    requires
                        i < 0x1_0000_0000_0000_0000,
                ;
                total = total + p.rss as u128;
            } else {
                assert(total <= (i + 1) * 0xFFFF_FFFF_FFFF_FFFFu128) by (nonlinear_arith)
                    requires
                        total <= i * 0xFFFF_FFFF_FFFF_FFFFu128,
                ;
            }
            i += 1;
        }
        total
    }

    /// Column-width hints for rendering the subtree under `root_pid`: the
    /// widest pid, in digits, and the width of the name column.
    pub fn calculate_column_widths(&self, root_pid: u32) -> (r: (usize, usize))
        requires
            self.wf(),
        ensures
            r.0 == max_digits(tree_pids(self@, root_pid)),
            r.1 == NAME_COLUMN_WIDTH,
    {
        let pids = self.collect_process_ids_in_tree(root_pid);
        let mut width: usize = 0;
        let mut i: usize = 0;
        while i < pids.len()
            invariant
                i <= pids@.len(),
                width == max_digits(pids@.subrange(0, i as int)),
                width <= 10,
            decreases pids@.len() - i,
        {
            assert(pids@.subrange(0, i + 1).drop_last() =~= pids@.subrange(0, i as int));
            let d = digits(pids[i]);
            if d > width {
                width = d;
            }
            i += 1;
        }
        assert(pids@.subrange(0, pids@.len() as int) =~= pids@);
        (width, NAME_COLUMN_WIDTH)
    }

    /// Marks each process of the subtree under `root_pid` whose memory equals
    /// `max_rss` as first, else equals a non-zero `second_max_rss` as second,
    /// else equals a non-zero `third_max_rss` as third. Marks already set stay.
    pub fn mark_memory_highlights_in_tree(
        &mut self,
        root_pid: u32,
        max_rss: u64,
        second_max_rss: u64,
        third_max_rss: u64,
    )
        requires
            old(self).wf(),
        ensures
            final(self).wf(),
            final(self)@.len() == old(self)@.len(),
            forall|i: int|
                0 <= i < old(self)@.len() ==> {
                    &&& same_record(#[trigger] final(self)@[i], old(self)@[i])
                    &&& final(self)@[i].children == old(self)@[i].children
                    &&& if in_subtree(old(self)@, root_pid, old(self)@[i].pid) {
                        marks_after(
                            old(self)@[i],
                            final(self)@[i],
                            max_rss,
                            second_max_rss,
                            third_max_rss,
                        )
                    } else {
                        same_marks(final(self)@[i], old(self)@[i])
                    }
                },
    {
        let member = self.membership(root_pid);
        let n = self.len();
        let mut i: usize = 0;
        while i < n
            invariant
                self.wf(),
                n == self@.len(),
                n == old(self)@.len(),
                i <= n,
                member@.len() == n,
                forall|k: int|
                    0 <= k < n ==> #[trigger] member@[k] == in_subtree(
                        old(self)@,
                        root_pid,
                        old(self)@[k].pid,
                    ),
                forall|k: int| i <= k < n ==> #[trigger] self@[k] == old(self)@[k],
                forall|k: int|
                    0 <= k < i ==> {
                        &&& same_record(#[trigger] self@[k], old(self)@[k])
                        &&& self@[k].children == old(self)@[k].children
                        &&& if member@[k] {
                            marks_after(
                                old(self)@[k],
                                self@[k],
                                max_rss,
                                second_max_rss,
                                third_max_rss,
                            )
                        } else {
                            same_marks(self@[k], old(self)@[k])
                        }
                    },
            decreases n - i,
        {
            if member[i] {
                let p = self.get(i);
                let rss = p.rss;
                let first = rss == max_rss;
                let second = !first && rss == second_max_rss && second_max_rss > 0;
                let third = !first && !second && rss == third_max_rss && third_max_rss > 0;
                let f = p.is_max_memory || first;
                let sm = p.is_second_max_memory || second;
                let t = p.is_third_max_memory || third;
                self.set_memory_marks(i, f, sm, t);
            }
            i += 1;
        }
    }

    /// Builds the tree under `root_pid`, marks its three largest distinct
    /// memory values and sums it up; `None`, with the table untouched, when
    /// the root is not in the table.
    pub fn extract_tree(&mut self, root_pid: u32) -> (r: Option<TreeSummary>)
        requires
            old(self).wf(),
        ensures
            final(self).wf(),
            r == tree_summary(old(self)@, root_pid),
            !has_pid(old(self)@, root_pid) ==> final(self)@ == old(self)@,
            final(self)@.len() == old(self)@.len(),
            has_pid(old(self)@, root_pid) ==> forall|i: int|
                0 <= i < old(self)@.len() ==> {
                    let t = top_three(tree_rss(old(self)@, root_pid));
                    &&& same_record(#[trigger] final(self)@[i], old(self)@[i])
                    &&& final(self)@[i].children@ == child_pids(old(self)@, old(self)@[i].pid)
                    &&& if in_subtree(old(self)@, root_pid, old(self)@[i].pid) {
                        marks_after(old(self)@[i], final(self)@[i], t.0, t.1, t.2)
                    } else {
                        same_marks(final(self)@[i], old(self)@[i])
                    }
                },
    {
        match self.build_process_tree(root_pid) {
            None => None,
            Some(_) => {
                let ghost s1 = self@;
                proof {
                    assert forall|i: int| 0 <= i < s1.len() implies same_record(
                        #[trigger] s1[i],
                        old(self)@[i],
                    ) by {}
                    lemma_summary_frame(s1, old(self)@, root_pid);
                    lemma_tree_frame(s1, old(self)@, root_pid, s1.len() as int);
                    assert forall|i: int| 0 <= i < s1.len() implies #[trigger] s1[i].pid
                        == old(self)@[i].pid && s1[i].parent_pid == old(self)@[i].parent_pid by {
                        assert(same_record(s1[i], old(self)@[i]));
                    }
                    assert forall|x: u32| #[trigger] in_subtree(s1, root_pid, x) == in_subtree(
                        old(self)@,
                        root_pid,
                        x,
                    ) by {
                        lemma_subtree_frame(s1, old(self)@, root_pid, x);
                    }
                }
                let rss = self.collect_all_rss_in_tree(root_pid);
                let (m1, m2, m3) = top_three_memory(&rss);
                let total = self.calculate_total_memory(root_pid);
                let count = self.count_processes(root_pid);
                let (pid_width, name_width) = self.calculate_column_widths(root_pid);
                self.mark_memory_highlights_in_tree(root_pid, m1, m2, m3);
                Some(
                    TreeSummary {
                        root_pid,
                        process_count: count,
                        total_memory: total,
                        average_memory: average_memory(total, count),
                        max_memory: m1,
                        second_max_memory: m2,
                        third_max_memory: m3,
                        pid_width,
                        name_width,
                    },
                )
            },
        }
    }

    /// Extracts and summarises the tree under each of `roots`, in order; a
    /// root missing from the table yields `None` and the others go on.
    pub fn summarize_roots(&mut self, roots: &Vec<u32>) -> (r: Vec<Option<TreeSummary>>)
        requires
            old(self).wf(),
        ensures
            final(self).wf(),
            final(self)@.len() == old(self)@.len(),
            forall|i: int|
                0 <= i < old(self)@.len() ==> after_roots(
                    old(self)@,
                    roots@,
                    old(self)@[i],
                    #[trigger] final(self)@[i],
                ),
            r@.len() == roots@.len(),
            forall|j: int|
                0 <= j < roots@.len() ==> #[trigger] r@[j] == tree_summary(old(self)@, roots@[j]),
    {
        let mut r: Vec<Option<TreeSummary>> = Vec::new();
        let mut j: usize = 0;
        proof {
            assert forall|i: int| 0 <= i < old(self)@.len() implies after_roots(
                old(self)@,
                roots@.subrange(0, 0),
                old(self)@[i],
                #[trigger] self@[i],
            ) by {
                assert(!any_root_present(old(self)@, roots@.subrange(0, 0)));
            }
        }
        while j < roots.len()
            invariant
                self.wf(),
                old(self).wf(),
                self@.len() == old(self)@.len(),
                forall|i: int|
                    0 <= i < old(self)@.len() ==> after_roots(
                        old(self)@,
                        roots@.subrange(0, j as int),
                        old(self)@[i],
                        #[trigger] self@[i],
                    ),
                j <= roots@.len(),
                r@.len() == j,
                forall|k: int|
                    0 <= k < j ==> #[trigger] r@[k] == tree_summary(old(self)@, roots@[k]),
            decreases roots@.len() - j,
        {
            let ghost before = self@;
            let ghost root = roots@[j as int];
            let ghost pre = roots@.subrange(0, j as int);
            let ghost s0 = old(self)@;
            proof {
                assert forall|i: int| 0 <= i < before.len() implies same_record(
                    #[trigger] before[i],
                    s0[i],
                ) by {
                    assert(after_roots(s0, pre, s0[i], before[i]));
                }
                lemma_summary_frame(before, s0, root);
                lemma_tree_frame(before, s0, root, before.len() as int);
                assert forall|i: int| 0 <= i < before.len() implies #[trigger] before[i].pid
                    == s0[i].pid && before[i].parent_pid == s0[i].parent_pid by {
                    assert(same_record(before[i], s0[i]));
                }
                lemma_lookup_frame(before, s0);
                assert forall|x: u32| #[trigger] in_subtree(before, root, x) == in_subtree(
                    s0,
                    root,
                    x,
                ) by {
                    lemma_subtree_frame(before, s0, root, x);
                }
                assert forall|q: u32| #[trigger] child_pids(before, q) == child_pids(s0, q) by {
                    lemma_child_pids_frame(before, s0, q);
                }
            }
            let summary = self.extract_tree(roots[j]);
            proof {
                let post = roots@.subrange(0, j + 1);
                assert(post.drop_last() =~= pre);
                assert(post.last() == root);
                assert(any_root_present(s0, post) == (any_root_present(s0, pre) || has_pid(
                    s0,
                    root,
                ))) by {
                    if any_root_present(s0, pre) {
                        let k = choose|k: int| 0 <= k < pre.len() && has_pid(s0, #[trigger] pre[k]);
                        assert(post[k] == pre[k]);
                    }
                    if any_root_present(s0, post) {
                        let k = choose|k: int| 0 <= k < post.len() && has_pid(s0, #[trigger] post[k]);
                        if k < pre.len() {
                            assert(post[k] == pre[k]);
                        }
                    }
                }
                assert forall|i: int| 0 <= i < s0.len() implies after_roots(
                    s0,
                    post,
                    s0[i],
                    #[trigger] self@[i],
                ) by {
                    assert(after_roots(s0, pre, s0[i], before[i]));
                    assert(same_record(before[i], s0[i]));
                }
            }
            r.push(summary);
            j += 1;
        }
        assert(roots@.subrange(0, roots@.len() as int) =~= roots@);
        r
    }

    /// The pids of the processes whose names match `query`, in table order.
    pub fn find_matching_pids(&self, query: &str) -> (r: Vec<u32>)
        ensures
            r@ == matching_pids(self@, query@),
    {
        let n = self.len();
        let mut r: Vec<u32> = Vec::new();
        let mut i: usize = 0;
        while i < n
            invariant
                n == self@.len(),
                i <= n,
                r@ == matching_upto(self@, query@, i as int),
            decreases n - i,
        {
            let p = self.get(i);
            if is_process_matching(p.name.as_str(), query) {
                r.push(p.pid);
            }
            i += 1;
        }
        r
    }

    /// One analysis pass: finds the processes matching `query`, the roots
    /// among them, and extracts and summarises the tree under each root.
    pub fn analyze_process_tree(&mut self, query: &str) -> (r: Analysis)
        requires
            old(self).wf(),
        ensures
            final(self).wf(),
            final(self)@.len() == old(self)@.len(),
            r is NoMatch || r is NoRoot ==> final(self)@ == old(self)@,
            r matches Analysis::Trees { roots, .. } ==> forall|i: int|
                0 <= i < old(self)@.len() ==> after_roots(
                    old(self)@,
                    roots@,
                    old(self)@[i],
                    #[trigger] final(self)@[i],
                ),
            matching_pids(old(self)@, query@).len() == 0 ==> r is NoMatch,
            matching_pids(old(self)@, query@).len() > 0 && root_pids(
                old(self)@,
                matching_pids(old(self)@, query@),
            ).len() == 0 ==> (r matches Analysis::NoRoot { matching } && matching@ == matching_pids(
                old(self)@,
                query@,
            )),
            matching_pids(old(self)@, query@).len() > 0 && root_pids(
                old(self)@,
                matching_pids(old(self)@, query@),
            ).len() > 0 ==> (r matches Analysis::Trees { matching, roots, reports } && matching@
                == matching_pids(old(self)@, query@) && roots@ == root_pids(
                old(self)@,
                matching_pids(old(self)@, query@),
            ) && reports@.len() == roots@.len() && forall|j: int|
                0 <= j < roots@.len() ==> #[trigger] reports@[j] == tree_summary(
                    old(self)@,
                    roots@[j],
                )),
    {
        let matching = self.find_matching_pids(query);
        if matching.len() == 0 {
            return Analysis::NoMatch;
        }
        let roots = self.find_root_processes(&matching);
        if roots.len() == 0 {
            return Analysis::NoRoot { matching };
        }
        let reports = self.summarize_roots(&roots);
        Analysis::Trees { matching, roots, reports }
    }
}

} // verus!
