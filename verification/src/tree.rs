//! The process forest: each process under its parent where the parent is
//! present, the others as roots; searching it by name, pruning it to the
//! families of some processes, and cutting it at a depth.
use vstd::prelude::*;
use std::collections::BTreeMap;
use std::collections::BTreeSet;

use crate::ordered::sorted_elements;
use crate::ordered::sorted_keys;
use crate::ordered::strictly_increasing;
use crate::procfs::Process;
use crate::text::chars_of;
use crate::text::contains_chars;
use crate::text::has_infix;
use crate::text::lowercase;
use crate::text::to_lowercase;

verus! {

broadcast use vstd::std_specs::btree::group_btree_axioms, vstd::laws_cmp::group_laws_cmp;

/// The processes of one user arranged as trees: `processes` by PID, `roots`
/// in increasing PID order, and for each process that has children, their
/// PIDs in increasing order.
#[derive(Debug, PartialEq, Eq)]
pub struct ProcessForest {
    pub processes: BTreeMap<u32, Process>,
    pub roots: Vec<u32>,
    pub children: BTreeMap<u32, Vec<u32>>,
}

/// A forest as plain values.
pub struct ForestView {
    pub processes: Map<u32, Process>,
    pub roots: Seq<u32>,
    pub children: Map<u32, Seq<u32>>,
}

impl View for ProcessForest {
    type V = ForestView;

    open spec fn view(&self) -> ForestView {
        ForestView {
            processes: self.processes@,
            roots: self.roots@,
            children: self.children@.map_values(|v: Vec<u32>| v@),
        }
    }
}

impl Clone for ProcessForest {
    fn clone(&self) -> (r: Self)
        ensures
            r@ == self@,
    {
        let r = ProcessForest {
            processes: self.processes.clone(),
            roots: self.roots.clone(),
            children: self.children.clone(),
        };
        assert(r@.children =~= self@.children);
        r
    }
}

/// Whether the parent of process `pid` is another process of `m`.
pub open spec fn parent_present(m: Map<u32, Process>, pid: u32) -> bool {
    m[pid].ppid != pid && m.contains_key(m[pid].ppid)
}

/// Whether `pid` is a process of `m` without a parent in `m`: its parent is
/// missing, or it is its own parent.
pub open spec fn is_root(m: Map<u32, Process>, pid: u32) -> bool {
    m.contains_key(pid) && !parent_present(m, pid)
}

/// Whether `c` is a process of `m` whose parent is the process `q` of `m`.
pub open spec fn is_child(m: Map<u32, Process>, c: u32, q: u32) -> bool {
    m.contains_key(c) && parent_present(m, c) && m[c].ppid == q
}

/// Whether every process of `m` is stored under its own PID.
pub open spec fn keyed_by_pid(m: Map<u32, Process>) -> bool {
    forall|k: u32| m.contains_key(k) ==> (#[trigger] m[k]).pid == k
}

/// The shape that the processes of a forest determine: the roots are the
/// processes without a parent in the forest, in increasing order; the
/// children of a process are the processes whose parent it is, in
/// increasing order, listed only where there is at least one.
pub open spec fn forest_shape(v: ForestView) -> bool {
    &&& keyed_by_pid(v.processes)
    &&& strictly_increasing(v.roots)
    &&& forall|p: u32| v.roots.contains(p) <==> is_root(v.processes, p)
    &&& forall|q: u32|
        #[trigger] v.children.contains_key(q) ==> v.children[q].len() > 0 && strictly_increasing(
            v.children[q],
        )
    &&& forall|q: u32, c: u32|
        #![trigger v.children[q].contains(c)]
        #![trigger is_child(v.processes, c, q)]
        v.children.contains_key(q) ==> (v.children[q].contains(c) <==> is_child(v.processes, c, q))
    &&& forall|q: u32, c: u32| #[trigger] is_child(v.processes, c, q) ==> v.children.contains_key(q)
}

impl ProcessForest {
    /// The forest has the shape that its processes determine.
    pub open spec fn wf(&self) -> bool {
        forest_shape(self@)
    }
}

/// The processes of `s` by PID; where several share a PID, the last one.
pub open spec fn by_pid(s: Seq<Process>) -> Map<u32, Process>
    decreases s.len(),
{
    if s.len() == 0 {
        Map::empty()
    } else {
        by_pid(s.drop_last()).insert(s.last().pid, s.last())
    }
}

/// The forest of the processes `m`.
pub open spec fn forest_of(m: Map<u32, Process>) -> ForestView {
    choose|v: ForestView| v.processes == m && forest_shape(v)
}

/// Two increasing sequences with the same elements are equal.
pub proof fn lemma_increasing_unique(a: Seq<u32>, b: Seq<u32>)
    requires
        strictly_increasing(a),
        strictly_increasing(b),
        forall|x: u32| a.contains(x) <==> b.contains(x),
    ensures
        a == b,
    decreases a.len(),
{
    if a.len() == 0 {
        if b.len() > 0 {
            assert(b.contains(b[0]));
        }
        assert(a =~= b);
    } else {
        assert(a.contains(a[0]));
        assert(b.len() > 0);
        assert(b.contains(b[0]));
        let i = choose|i: int| 0 <= i < a.len() && a[i] == b[0];
        let j = choose|j: int| 0 <= j < b.len() && b[j] == a[0];
        assert(a[0] <= a[i]);
        assert(b[0] <= b[j]);
        assert(a[0] == b[0]);
        let a1 = a.drop_first();
        let b1 = b.drop_first();
        assert forall|x: u32| a1.contains(x) <==> b1.contains(x) by {
            if a1.contains(x) {
                let t = choose|t: int| 0 <= t < a1.len() && a1[t] == x;
                assert(a.contains(x));
                assert(a[0] < a[t + 1]);
                assert(b.contains(x));
                let u = choose|u: int| 0 <= u < b.len() && b[u] == x;
                assert(u != 0);
                assert(b1[u - 1] == x);
            }
            if b1.contains(x) {
                let t = choose|t: int| 0 <= t < b1.len() && b1[t] == x;
                assert(b.contains(x));
                assert(b[0] < b[t + 1]);
                assert(a.contains(x));
                let u = choose|u: int| 0 <= u < a.len() && a[u] == x;
                assert(u != 0);
                assert(a1[u - 1] == x);
            }
        }
        lemma_increasing_unique(a1, b1);
        assert(a =~= b) by {
            assert forall|k: int| 0 <= k < a.len() implies a[k] == b[k] by {
                if k > 0 {
                    assert(a1[k - 1] == b1[k - 1]);
                }
            }
        }
    }
}

/// A well-formed forest is determined by its processes: its roots and its
/// lists of children are those that the processes give.
pub proof fn lemma_shape_unique(v: ForestView, w: ForestView)
    requires
        forest_shape(v),
        forest_shape(w),
        v.processes == w.processes,
    ensures
        v == w,
{
    let m = v.processes;
    lemma_increasing_unique(v.roots, w.roots);
    assert forall|q: u32| v.children.contains_key(q) implies w.children.contains_key(q) && v.children[q]
        == w.children[q] by {
        let c = v.children[q][0];
        assert(v.children[q].contains(c));
        assert(is_child(m, c, q));
        assert(w.children.contains_key(q));
        assert forall|x: u32| v.children[q].contains(x) <==> w.children[q].contains(x) by {
            if v.children[q].contains(x) {
                assert(is_child(m, x, q));
            }
            if w.children[q].contains(x) {
                assert(is_child(m, x, q));
            }
        }
        lemma_increasing_unique(v.children[q], w.children[q]);
    }
    assert forall|q: u32| w.children.contains_key(q) implies v.children.contains_key(q) by {
        let c = w.children[q][0];
        assert(w.children[q].contains(c));
        assert(is_child(m, c, q));
    }
    assert(v.children =~= w.children);
}

/// A well-formed forest is the forest of its processes.
pub proof fn lemma_forest_of(f: ProcessForest)
    requires
        f.wf(),
    ensures
        f@ == forest_of(f.processes@),
{
    let v = forest_of(f.processes@);
    assert(v.processes == f.processes@ && forest_shape(v));
    lemma_shape_unique(f@, v);
}

/// Processes put by PID are stored under their own PID.
pub proof fn lemma_by_pid_keyed(s: Seq<Process>)
    ensures
        keyed_by_pid(by_pid(s)),
    decreases s.len(),
{
    if s.len() > 0 {
        lemma_by_pid_keyed(s.drop_last());
    }
}

/// Whether `c` is one of the first `i` elements of `ks`.
spec fn among(ks: Seq<u32>, i: int, c: u32) -> bool {
    exists|t: int| 0 <= t < i && #[trigger] ks[t] == c
}

/// The forest of the processes of `m`, each stored under its own PID.
fn forest_from_map(m: BTreeMap<u32, Process>) -> (f: ProcessForest)
    requires
        keyed_by_pid(m@),
    ensures
        f.wf(),
        f.processes@ == m@,
{
    let ks = sorted_keys(&m);
    let mut roots: Vec<u32> = Vec::new();
    let mut children: BTreeMap<u32, Vec<u32>> = BTreeMap::new();
    let ghost mm = m@;
    let mut i: usize = 0;
    while i < ks.len()
        invariant
            mm == m@,
            keyed_by_pid(mm),
            0 <= i <= ks@.len(),
            strictly_increasing(ks@),
            forall|k: u32| ks@.contains(k) <==> mm.contains_key(k),
            strictly_increasing(roots@),
            forall|p: u32|
                #![trigger roots@.contains(p)]
                #![trigger among(ks@, i as int, p)]
                roots@.contains(p) <==> among(ks@, i as int, p) && is_root(mm, p),
            forall|q: u32|
                #[trigger] children@.contains_key(q) ==> children@[q]@.len() > 0
                    && strictly_increasing(children@[q]@),
            forall|q: u32, c: u32|
                #![trigger children@[q]@.contains(c)]
                children@.contains_key(q) ==> (children@[q]@.contains(c) <==> among(
                    ks@,
                    i as int,
                    c,
                ) && is_child(mm, c, q)),
            forall|q: u32, c: u32|
                #![trigger is_child(mm, c, q)]
                among(ks@, i as int, c) && is_child(mm, c, q) ==> children@.contains_key(q),
        decreases ks@.len() - i,
    {
        let pid = ks[i];
        assert(ks@.contains(pid));
        let ghost old_children = children@;
        let ghost old_roots = roots@;
        assert forall|c: u32| among(ks@, i as int, c) implies c < pid by {
            let t = choose|t: int| 0 <= t < i && ks@[t] == c;
        }
        let process = m.get(&pid).unwrap();
        let ppid = process.ppid;
        if process.ppid != process.pid && m.contains_key(&ppid) {
            assert(is_child(mm, pid, ppid));
            match children.remove(&ppid) {
                Some(mut kids) => {
                    assert(kids@ == old_children[ppid]@);
                    assert forall|a: int| 0 <= a < kids@.len() implies kids@[a] < pid by {
                        assert(kids@.contains(kids@[a]));
                    }
                    kids.push(pid);
                    children.insert(ppid, kids);
                },
                None => {
                    let mut kids: Vec<u32> = Vec::new();
                    kids.push(pid);
                    children.insert(ppid, kids);
                },
            }
            proof {
                assert(strictly_increasing(children@[ppid]@));
                assert forall|q: u32, c: u32|
                    #![trigger children@[q]@.contains(c)]
                    children@.contains_key(q) implies (children@[q]@.contains(c) <==> among(
                        ks@,
                        i + 1,
                        c,
                    ) && is_child(mm, c, q)) by {
                    if among(ks@, i + 1, c) {
                        let t = choose|t: int| 0 <= t < i + 1 && ks@[t] == c;
                        if t < i {
                            assert(among(ks@, i as int, c));
                        }
                    }
                    if q == ppid {
                        if children@[q]@.contains(c) && c != pid {
                            let a = choose|a: int| 0 <= a < children@[q]@.len() && children@[q]@[a] == c;
                            assert(old_children.contains_key(q) ==> old_children[q]@.contains(c)) by {
                                if old_children.contains_key(q) {
                                    assert(old_children[q]@[a] == c);
                                }
                            }
                        }
                        if among(ks@, i as int, c) && is_child(mm, c, q) {
                            assert(old_children[q]@.contains(c));
                            let a = choose|a: int| 0 <= a < old_children[q]@.len() && old_children[q]@[a] == c;
                            assert(children@[q]@[a] == c);
                        }
                        assert(children@[q]@.contains(pid)) by {
                            assert(children@[q]@[children@[q]@.len() - 1] == pid);
                        }
                    } else {
                        assert(children@[q] == old_children[q]);
                        if among(ks@, i + 1, c) && is_child(mm, c, q) && !among(ks@, i as int, c) {
                            assert(c == pid);
                        }
                    }
                }
                assert forall|q: u32, c: u32|
                    #![trigger is_child(mm, c, q)]
                    among(ks@, i + 1, c) && is_child(mm, c, q) implies children@.contains_key(q) by {
                    let t = choose|t: int| 0 <= t < i + 1 && ks@[t] == c;
                    if t < i {
                        assert(among(ks@, i as int, c));
                    }
                }
                assert forall|p: u32|
                    #![trigger roots@.contains(p)]
                    #![trigger among(ks@, i + 1, p)]
                    roots@.contains(p) <==> among(ks@, i + 1, p) && is_root(mm, p) by {
                    if among(ks@, i + 1, p) {
                        let t = choose|t: int| 0 <= t < i + 1 && ks@[t] == p;
                        if t < i {
                            assert(among(ks@, i as int, p));
                        } else {
                            assert(p == pid);
                            assert(!is_root(mm, p));
                        }
                    }
                    if among(ks@, i as int, p) {
                        let t = choose|t: int| 0 <= t < i && ks@[t] == p;
                        assert(among(ks@, i + 1, p));
                    }
                }
            }
        } else {
            assert(is_root(mm, pid));
            assert forall|a: int| 0 <= a < roots@.len() implies roots@[a] < pid by {
                assert(roots@.contains(roots@[a]));
                assert(among(ks@, i as int, roots@[a]));
            }
            roots.push(pid);
            proof {
                assert forall|p: u32|
                    #![trigger roots@.contains(p)]
                    #![trigger among(ks@, i + 1, p)]
                    roots@.contains(p) <==> among(ks@, i + 1, p) && is_root(mm, p) by {
                    if among(ks@, i + 1, p) {
                        let t = choose|t: int| 0 <= t < i + 1 && ks@[t] == p;
                        if t < i {
                            assert(among(ks@, i as int, p));
                        }
                    }
                    if roots@.contains(p) && p != pid {
                        let a = choose|a: int| 0 <= a < roots@.len() && roots@[a] == p;
                        assert(old_roots[a] == p);
                    }
                    if among(ks@, i as int, p) && is_root(mm, p) {
                        assert(old_roots.contains(p));
                        let a = choose|a: int| 0 <= a < old_roots.len() && old_roots[a] == p;
                        assert(roots@[a] == p);
                    }
                    assert(roots@[roots@.len() - 1] == pid);
                }
                assert forall|q: u32, c: u32|
                    #![trigger children@[q]@.contains(c)]
                    children@.contains_key(q) implies (children@[q]@.contains(c) <==> among(
                        ks@,
                        i + 1,
                        c,
                    ) && is_child(mm, c, q)) by {
                    if among(ks@, i + 1, c) {
                        let t = choose|t: int| 0 <= t < i + 1 && ks@[t] == c;
                        if t < i {
                            assert(among(ks@, i as int, c));
                        } else {
                            assert(c == pid);
                            assert(!is_child(mm, c, q));
                        }
                    }
                    if among(ks@, i as int, c) {
                        let t = choose|t: int| 0 <= t < i && ks@[t] == c;
                        assert(among(ks@, i + 1, c));
                    }
                }
                assert forall|q: u32, c: u32|
                    #![trigger is_child(mm, c, q)]
                    among(ks@, i + 1, c) && is_child(mm, c, q) implies children@.contains_key(q) by {
                    let t = choose|t: int| 0 <= t < i + 1 && ks@[t] == c;
                    if t < i {
                        assert(among(ks@, i as int, c));
                    }
                }
            }
        }
        i = i + 1;
    }
    let f = ProcessForest { processes: m, roots, children };
    proof {
        assert forall|c: u32| mm.contains_key(c) implies among(ks@, ks@.len() as int, c) by {
            assert(ks@.contains(c));
            let t = choose|t: int| 0 <= t < ks@.len() && ks@[t] == c;
        }
        assert(forest_shape(f@));
    }
    f
}

/// The forest of `processes`: every process by its PID (a later one replaces
/// an earlier one of the same PID), a process under its parent where the
/// parent is another process of the list, the others as roots; roots and
/// lists of children in increasing PID order.
pub fn build_forest(processes: Vec<Process>) -> (f: ProcessForest)
    ensures
        f.wf(),
        f.processes@ == by_pid(processes@),
        f@ == forest_of(by_pid(processes@)),
{
    let mut m: BTreeMap<u32, Process> = BTreeMap::new();
    let mut i: usize = 0;
    while i < processes.len()
        invariant
            0 <= i <= processes@.len(),
            m@ == by_pid(processes@.take(i as int)),
        decreases processes@.len() - i,
    {
        let p = processes[i].clone();
        m.insert(p.pid, p);
        assert(processes@.take(i + 1).drop_last() =~= processes@.take(i as int));
        i = i + 1;
    }
    assert(processes@.take(processes@.len() as int) =~= processes@);
    proof {
        lemma_by_pid_keyed(processes@);
    }
    let f = forest_from_map(m);
    proof {
        lemma_forest_of(f);
    }
    f
}

/// Whether a process name contains `pattern`, both taken in lowercase.
pub open spec fn name_matches(name: Seq<char>, pattern: Seq<char>) -> bool {
    has_infix(lowercase(name), lowercase(pattern))
}

/// The PIDs of the processes of `forest` whose names contain `pattern`,
/// compared in lowercase.
pub fn matching_process_ids(forest: &ProcessForest, pattern: &str) -> (r: BTreeSet<u32>)
    ensures
        forall|x: u32|
            r@.contains(x) <==> exists|k: u32|
                #![trigger forest.processes@[k]]
                forest.processes@.contains_key(k) && forest.processes@[k].pid == x && name_matches(
                    forest.processes@[k].name@,
                    pattern@,
                ),
{
    let m = &forest.processes;
    let lower_pattern = to_lowercase(pattern);
    let needle = chars_of(lower_pattern.as_str());
    let ks = sorted_keys(m);
    let mut r: BTreeSet<u32> = BTreeSet::new();
    let mut i: usize = 0;
    while i < ks.len()
        invariant
            0 <= i <= ks@.len(),
            m@ == forest.processes@,
            needle@ == lowercase(pattern@),
            forall|k: u32| ks@.contains(k) <==> m@.contains_key(k),
            forall|x: u32|
                r@.contains(x) <==> exists|t: int|
                    #![trigger ks@[t]]
                    0 <= t < i && m@[ks@[t]].pid == x && name_matches(m@[ks@[t]].name@, pattern@),
        decreases ks@.len() - i,
    {
        let k = ks[i];
        assert(ks@.contains(k));
        let process = m.get(&k).unwrap();
        let lower_name = to_lowercase(process.name.as_str());
        let hay = chars_of(lower_name.as_str());
        if contains_chars(&hay, &needle) {
            r.insert(process.pid);
        }
        proof {
            assert forall|x: u32|
                r@.contains(x) <==> exists|t: int|
                    #![trigger ks@[t]]
                    0 <= t < i + 1 && m@[ks@[t]].pid == x && name_matches(m@[ks@[t]].name@, pattern@) by {
                if exists|t: int|
                    #![trigger ks@[t]]
                    0 <= t < i + 1 && m@[ks@[t]].pid == x && name_matches(m@[ks@[t]].name@, pattern@) {
                    let t = choose|t: int|
                        #![trigger ks@[t]]
                        0 <= t < i + 1 && m@[ks@[t]].pid == x && name_matches(m@[ks@[t]].name@, pattern@);
                    if t == i {
                        assert(r@.contains(x));
                    }
                }
            }
        }
        i = i + 1;
    }
    proof {
        assert forall|x: u32|
            r@.contains(x) <==> exists|k: u32|
                #![trigger forest.processes@[k]]
                forest.processes@.contains_key(k) && forest.processes@[k].pid == x && name_matches(
                    forest.processes@[k].name@,
                    pattern@,
                ) by {
            if r@.contains(x) {
                let t = choose|t: int|
                    #![trigger ks@[t]]
                    0 <= t < ks@.len() && m@[ks@[t]].pid == x && name_matches(m@[ks@[t]].name@, pattern@);
                assert(ks@.contains(ks@[t]));
                assert(forest.processes@[ks@[t]].pid == x);
            }
            if exists|k: u32|
                #![trigger forest.processes@[k]]
                forest.processes@.contains_key(k) && forest.processes@[k].pid == x && name_matches(
                    forest.processes@[k].name@,
                    pattern@,
                ) {
                let k = choose|k: u32|
                    #![trigger forest.processes@[k]]
                    forest.processes@.contains_key(k) && forest.processes@[k].pid == x && name_matches(
                        forest.processes@[k].name@,
                        pattern@,
                    );
                assert(ks@.contains(k));
                let t = choose|t: int| 0 <= t < ks@.len() && ks@[t] == k;
                assert(m@[ks@[t]].pid == x);
            }
        }
    }
    r
}

/// The process reached from `p` by going `k` times to the parent, while the
/// parent is in `m`; `None` once the walk has left `m` or passed a root.
pub open spec fn ancestor_at(m: Map<u32, Process>, p: u32, k: nat) -> Option<u32>
    decreases k,
{
    if k == 0 {
        if m.contains_key(p) {
            Some(p)
        } else {
            None
        }
    } else {
        match ancestor_at(m, p, (k - 1) as nat) {
            Some(q) => if parent_present(m, q) {
                Some(m[q].ppid)
            } else {
                None
            },
            None => None,
        }
    }
}

/// Whether `a` is `p` or one of its ancestors in `m`.
pub open spec fn is_ancestor(m: Map<u32, Process>, a: u32, p: u32) -> bool {
    exists|k: nat| #[trigger] ancestor_at(m, p, k) == Some(a)
}

/// Whether the chain of parents from `p` ends at a root of `m`, rather than
/// running around a cycle of parents.
pub open spec fn reaches_root(m: Map<u32, Process>, p: u32) -> bool {
    exists|k: nat| #[trigger] ancestor_at(m, p, k) matches Some(r) && is_root(m, r)
}

/// Whether `p` lies `i` levels below a member of `start`: level 0 is `start`,
/// and level `i + 1` holds the processes whose parent is on level `i`.
pub open spec fn at_level(m: Map<u32, Process>, start: Set<u32>, p: u32, i: nat) -> bool
    decreases i,
{
    if i == 0 {
        start.contains(p)
    } else {
        m.contains_key(p) && parent_present(m, p) && at_level(m, start, m[p].ppid, (i - 1) as nat)
    }
}

/// Whether `p` is a member of `start` or a descendant of one.
pub open spec fn is_descendant(m: Map<u32, Process>, start: Set<u32>, p: u32) -> bool {
    exists|i: nat| #[trigger] at_level(m, start, p, i)
}

/// Whether `p` lies fewer than `d` levels below a member of `start`.
pub open spec fn within_depth(m: Map<u32, Process>, start: Set<u32>, p: u32, d: nat) -> bool {
    exists|i: nat| i < d && #[trigger] at_level(m, start, p, i)
}

/// The roots of `m`.
pub open spec fn root_set(m: Map<u32, Process>) -> Set<u32> {
    Set::new(|p: u32| is_root(m, p))
}

/// The processes that pruning for `matches` keeps: each match, its
/// ancestors and its descendants.
pub open spec fn family_of(m: Map<u32, Process>, matches: Set<u32>) -> Set<u32> {
    Set::new(
        |p: u32|
            (exists|mt: u32| #[trigger] matches.contains(mt) && is_ancestor(m, p, mt))
                || is_descendant(m, matches, p),
    )
}

/// The processes fewer than `d` levels below a root.
pub open spec fn top_levels(m: Map<u32, Process>, d: nat) -> Set<u32> {
    Set::new(|p: u32| within_depth(m, root_set(m), p, d))
}

/// Once the walk upwards passes a root, it has ended.
proof fn lemma_walk_ends(m: Map<u32, Process>, p: u32, k: nat, j: nat)
    requires
        ancestor_at(m, p, k) matches Some(r) && !parent_present(m, r),
        j > k,
    ensures
        ancestor_at(m, p, j) is None,
    decreases j,
{
    if j > k + 1 {
        lemma_walk_ends(m, p, k, (j - 1) as nat);
    }
}

/// From a PID outside `m` there is no walk upwards.
proof fn lemma_walk_absent(m: Map<u32, Process>, p: u32, j: nat)
    requires
        !m.contains_key(p),
    ensures
        ancestor_at(m, p, j) is None,
    decreases j,
{
    if j > 0 {
        lemma_walk_absent(m, p, (j - 1) as nat);
    }
}

/// Adds `pid` and its ancestors to `included`, walking from parent to parent
/// until a root.
fn include_ancestors(forest: &ProcessForest, pid: u32, included: &mut BTreeSet<u32>)
    requires
        forest.wf(),
        forest.processes@.contains_key(pid) ==> reaches_root(forest.processes@, pid),
    ensures
        forall|a: u32|
            final(included)@.contains(a) <==> old(included)@.contains(a) || is_ancestor(
                forest.processes@,
                a,
                pid,
            ),
{
    let ghost m = forest.processes@;
    if !forest.processes.contains_key(&pid) {
        proof {
            assert forall|a: u32| !is_ancestor(m, a, pid) by {
                assert forall|k: nat| #[trigger] ancestor_at(m, pid, k) != Some(a) by {
                    lemma_walk_absent(m, pid, k);
                }
            }
        }
        return;
    }
    let ghost k0: nat = choose|k: nat| #[trigger] ancestor_at(m, pid, k) matches Some(r) && is_root(m, r);
    let mut current = pid;
    let ghost mut steps: nat = 0;
    let mut process = forest.processes.get(&current).unwrap();
    included.insert(process.pid);
    let mut has_parent = process.ppid != process.pid && forest.processes.contains_key(&process.ppid);
    while has_parent
        invariant
            forest.wf(),
            m == forest.processes@,
            m.contains_key(current),
            *process == m[current],
            ancestor_at(m, pid, steps) == Some(current),
            ancestor_at(m, pid, k0) matches Some(r) && is_root(m, r),
            steps <= k0,
            has_parent == parent_present(m, current),
            forall|a: u32|
                included@.contains(a) <==> old(included)@.contains(a) || exists|j: nat|
                    j <= steps && #[trigger] ancestor_at(m, pid, j) == Some(a),
        decreases k0 - steps,
    {
        assert(steps < k0);
        current = process.ppid;
        proof {
            steps = steps + 1;
        }
        process = forest.processes.get(&current).unwrap();
        included.insert(process.pid);
        has_parent = process.ppid != process.pid && forest.processes.contains_key(&process.ppid);
        proof {
            assert forall|a: u32|
                included@.contains(a) <==> old(included)@.contains(a) || exists|j: nat|
                    j <= steps && #[trigger] ancestor_at(m, pid, j) == Some(a) by {
                if exists|j: nat| j <= steps && #[trigger] ancestor_at(m, pid, j) == Some(a) {
                    let j = choose|j: nat| j <= steps && #[trigger] ancestor_at(m, pid, j) == Some(a);
                    if j < steps {
                        assert(exists|j2: nat| j2 <= steps - 1 && #[trigger] ancestor_at(m, pid, j2) == Some(a));
                    }
                }
                if a == current {
                    assert(ancestor_at(m, pid, steps) == Some(a));
                }
            }
        }
    }
    proof {
        assert forall|a: u32|
            included@.contains(a) <==> old(included)@.contains(a) || is_ancestor(m, a, pid) by {
            if is_ancestor(m, a, pid) {
                let k = choose|k: nat| #[trigger] ancestor_at(m, pid, k) == Some(a);
                if k > steps {
                    lemma_walk_ends(m, pid, steps, k);
                }
            }
        }
    }
}

/// Being fewer than `n + 1` levels down is being fewer than `n` levels down
/// or exactly `n`.
proof fn lemma_within_next(m: Map<u32, Process>, start: Set<u32>, p: u32, n: nat)
    ensures
        within_depth(m, start, p, n + 1) <==> within_depth(m, start, p, n) || at_level(
            m,
            start,
            p,
            n,
        ),
{
    if within_depth(m, start, p, n + 1) {
        let j = choose|j: nat| j < n + 1 && #[trigger] at_level(m, start, p, j);
        if j < n {
            assert(within_depth(m, start, p, n));
        }
    }
    if at_level(m, start, p, n) {
        assert(within_depth(m, start, p, n + 1));
    }
    if within_depth(m, start, p, n) {
        let j = choose|j: nat| j < n && #[trigger] at_level(m, start, p, j);
        assert(within_depth(m, start, p, n + 1));
    }
}

/// Once level `n` holds nothing new, no deeper level does.
proof fn lemma_levels_stay(m: Map<u32, Process>, start: Set<u32>, n: nat, i: nat, p: u32)
    requires
        forall|q: u32| #[trigger] at_level(m, start, q, n) ==> within_depth(m, start, q, n),
        at_level(m, start, p, i),
        i >= n,
    ensures
        within_depth(m, start, p, n),
    decreases i,
{
    if i > n {
        let q = m[p].ppid;
        lemma_levels_stay(m, start, n, (i - 1) as nat, q);
        let j = choose|j: nat| j < n && #[trigger] at_level(m, start, q, j);
        assert(at_level(m, start, p, j + 1));
        if j + 1 < n {
            assert(within_depth(m, start, p, n));
        }
    }
}

/// The members of `start` and the processes below them, down to fewer than
/// `max_levels` levels where that is given, found level by level.
fn collect_levels(forest: &ProcessForest, start: &BTreeSet<u32>, max_levels: Option<usize>) -> (seen:
    BTreeSet<u32>)
    requires
        forest.wf(),
    ensures
        forall|p: u32|
            seen@.contains(p) <==> exists|i: nat|
                #[trigger] at_level(forest.processes@, start@, p, i) && (max_levels matches Some(d)
                    ==> i < d),
{
    let ghost m = forest.processes@;
    let ghost st = start@;
    let limited = max_levels.is_some();
    let d: usize = match max_levels {
        Some(d) => d,
        None => 0,
    };
    let mut seen: BTreeSet<u32> = BTreeSet::new();
    let mut frontier: Vec<u32> = sorted_elements(start);
    let ghost univ = m.dom().union(frontier@.to_set());
    let mut level: usize = 0;
    proof {
        assert forall|p: u32| st.contains(p) implies univ.contains(p) by {
            assert(frontier@.contains(p));
        }
        assert forall|p: u32| frontier@.contains(p) <==> at_level(m, st, p, 0) && !within_depth(m, st, p, 0) by {}
        assert(seen@ =~= Set::<u32>::empty());
    }
    while frontier.len() > 0 && (!limited || level < d)
        invariant
            forest.wf(),
            m == forest.processes@,
            st == start@,
            forall|p: u32| st.contains(p) ==> univ.contains(p),
            forall|p: u32| m.contains_key(p) ==> univ.contains(p),
            univ.finite(),
            seen@.finite(),
            level <= seen@.len(),
            limited == max_levels.is_some(),
            limited ==> max_levels == Some(d),
            limited ==> level <= d,
            forall|p: u32| #[trigger] seen@.contains(p) <==> within_depth(m, st, p, level as nat),
            forall|p: u32|
                #[trigger] frontier@.contains(p) <==> at_level(m, st, p, level as nat)
                    && !within_depth(m, st, p, level as nat),
            seen@.subset_of(univ),
        decreases univ.len() - seen@.len(),
    {
        let ghost old_seen = seen@;
        let ghost f0 = frontier@[0];
        assert(univ.finite());
        assert(frontier@.contains(f0));
        // everything on this level joins what has been seen
        let mut t: usize = 0;
        while t < frontier.len()
            invariant
                0 <= t <= frontier@.len(),
                forall|p: u32|
                    #[trigger] seen@.contains(p) <==> old_seen.contains(p) || exists|u: int|
                        0 <= u < t && frontier@[u] == p,
            decreases frontier@.len() - t,
        {
            seen.insert(frontier[t]);
            proof {
                assert forall|p: u32|
                    #[trigger] seen@.contains(p) <==> old_seen.contains(p) || exists|u: int|
                        0 <= u < t + 1 && frontier@[u] == p by {
                    if exists|u: int| 0 <= u < t + 1 && frontier@[u] == p {
                        let u = choose|u: int| 0 <= u < t + 1 && frontier@[u] == p;
                        if u < t {
                            assert(exists|u2: int| 0 <= u2 < t && frontier@[u2] == p);
                        }
                    }
                }
            }
            t = t + 1;
        }
        proof {
            assert forall|p: u32| #[trigger] seen@.contains(p) <==> within_depth(m, st, p, (level + 1) as nat) by {
                lemma_within_next(m, st, p, level as nat);
                if frontier@.contains(p) {
                    let u = choose|u: int| 0 <= u < frontier@.len() && frontier@[u] == p;
                }
                if exists|u: int| 0 <= u < frontier@.len() && frontier@[u] == p {
                    let u = choose|u: int| 0 <= u < frontier@.len() && frontier@[u] == p;
                    assert(frontier@.contains(p));
                }
            }
            assert(seen@.contains(f0));
            assert(!old_seen.contains(f0));
            assert(seen@.subset_of(univ)) by {
                assert forall|p: u32| seen@.contains(p) implies univ.contains(p) by {
                    if !old_seen.contains(p) {
                        let u = choose|u: int| 0 <= u < frontier@.len() && frontier@[u] == p;
                        assert(frontier@.contains(p));
                        if level == 0 {
                            assert(st.contains(p));
                        } else {
                            assert(m.contains_key(p));
                        }
                    }
                }
            }
            vstd::set_lib::lemma_len_subset(old_seen.insert(f0), seen@);
            vstd::set_lib::lemma_len_subset(seen@, univ);
        }
        let seen_count = seen.len();
        assert(level < seen_count);
        // the processes one level further down that have not been seen
        let mut next: BTreeSet<u32> = BTreeSet::new();
        let mut t: usize = 0;
        while t < frontier.len()
            invariant
                forest.wf(),
                m == forest.processes@,
                0 <= t <= frontier@.len(),
                forall|c: u32|
                    #[trigger] next@.contains(c) <==> (exists|u: int|
                        0 <= u < t && is_child(m, c, frontier@[u])) && !seen@.contains(c),
            decreases frontier@.len() - t,
        {
            let q = frontier[t];
            match forest.children.get(&q) {
                Some(kids) => {
                    let mut j: usize = 0;
                    while j < kids.len()
                        invariant
                            forest.wf(),
                            m == forest.processes@,
                            0 <= t < frontier@.len(),
                            q == frontier@[t as int],
                            forest.children@.contains_key(q),
                            *kids == forest.children@[q],
                            0 <= j <= kids@.len(),
                            forall|c: u32|
                                #[trigger] next@.contains(c) <==> ((exists|u: int|
                                    0 <= u < t && is_child(m, c, frontier@[u])) || exists|v: int|
                                    0 <= v < j && kids@[v] == c) && !seen@.contains(c),
                        decreases kids@.len() - j,
                    {
                        let c = kids[j];
                        if !seen.contains(&c) {
                            next.insert(c);
                        }
                        proof {
                            assert forall|x: u32|
                                #[trigger] next@.contains(x) <==> ((exists|u: int|
                                    0 <= u < t && is_child(m, x, frontier@[u])) || exists|v: int|
                                    0 <= v < j + 1 && kids@[v] == x) && !seen@.contains(x) by {
                                if exists|v: int| 0 <= v < j + 1 && kids@[v] == x {
                                    let v = choose|v: int| 0 <= v < j + 1 && kids@[v] == x;
                                    if v < j {
                                        assert(exists|v2: int| 0 <= v2 < j && kids@[v2] == x);
                                    }
                                }
                            }
                        }
                        j = j + 1;
                    }
                    proof {
                        assert forall|c: u32|
                            #[trigger] next@.contains(c) <==> (exists|u: int|
                                0 <= u < t + 1 && is_child(m, c, frontier@[u])) && !seen@.contains(c) by {
                            if exists|v: int| 0 <= v < kids@.len() && kids@[v] == c {
                                let v = choose|v: int| 0 <= v < kids@.len() && kids@[v] == c;
                                assert(forest@.children[q].contains(c));
                                assert(is_child(m, c, frontier@[t as int]));
                            }
                            if exists|u: int| 0 <= u < t + 1 && is_child(m, c, frontier@[u]) {
                                let u = choose|u: int| 0 <= u < t + 1 && is_child(m, c, frontier@[u]);
                                if u == t {
                                    assert(forest@.children[q].contains(c));
                                    let v = choose|v: int| 0 <= v < kids@.len() && kids@[v] == c;
                                } else {
                                    assert(exists|u2: int| 0 <= u2 < t && is_child(m, c, frontier@[u2]));
                                }
                            }
                        }
                    }
                },
                None => {
                    proof {
                        assert forall|c: u32|
                            #[trigger] next@.contains(c) <==> (exists|u: int|
                                0 <= u < t + 1 && is_child(m, c, frontier@[u])) && !seen@.contains(c) by {
                            if exists|u: int| 0 <= u < t + 1 && is_child(m, c, frontier@[u]) {
                                let u = choose|u: int| 0 <= u < t + 1 && is_child(m, c, frontier@[u]);
                                if u == t {
                                    assert(forest@.children.contains_key(q));
                                } else {
                                    assert(exists|u2: int| 0 <= u2 < t && is_child(m, c, frontier@[u2]));
                                }
                            }
                        }
                    }
                },
            }
            t = t + 1;
        }
        let ghost old_frontier = frontier@;
        frontier = sorted_elements(&next);
        proof {
            let n = level as nat;
            assert forall|c: u32|
                #[trigger] frontier@.contains(c) <==> at_level(m, st, c, n + 1) && !within_depth(
                    m,
                    st,
                    c,
                    n + 1,
                ) by {
                if frontier@.contains(c) {
                    let u = choose|u: int| 0 <= u < old_frontier.len() && is_child(m, c, old_frontier[u]);
                    assert(old_frontier.contains(old_frontier[u]));
                    assert(at_level(m, st, c, n + 1));
                }
                if at_level(m, st, c, n + 1) && !within_depth(m, st, c, n + 1) {
                    let q = m[c].ppid;
                    assert(at_level(m, st, q, n));
                    if within_depth(m, st, q, n) {
                        let j = choose|j: nat| j < n && #[trigger] at_level(m, st, q, j);
                        assert(at_level(m, st, c, j + 1));
                        assert(within_depth(m, st, c, n + 1));
                    }
                    assert(old_frontier.contains(q));
                    let u = choose|u: int| 0 <= u < old_frontier.len() && old_frontier[u] == q;
                    assert(is_child(m, c, old_frontier[u]));
                }
            }
        }
        level = level + 1;
    }
    proof {
        let n = level as nat;
        assert forall|p: u32|
            seen@.contains(p) <==> exists|i: nat|
                #[trigger] at_level(m, st, p, i) && (max_levels matches Some(d) ==> i < d) by {
            if seen@.contains(p) {
                let j = choose|j: nat| j < n && #[trigger] at_level(m, st, p, j);
                assert(at_level(m, st, p, j) && (max_levels matches Some(d) ==> j < d));
            }
            if exists|i: nat| #[trigger] at_level(m, st, p, i) && (max_levels matches Some(d) ==> i < d) {
                let i = choose|i: nat| #[trigger] at_level(m, st, p, i) && (max_levels matches Some(d) ==> i < d);
                if i < n {
                    assert(within_depth(m, st, p, n));
                } else {
                    assert(frontier@.len() == 0);
                    assert forall|q: u32| #[trigger] at_level(m, st, q, n) implies within_depth(m, st, q, n) by {
                        if !within_depth(m, st, q, n) {
                            assert(frontier@.contains(q));
                        }
                    }
                    lemma_levels_stay(m, st, n, i, p);
                }
            }
        }
    }
    seen
}

/// The forest of those processes of `forest` whose PIDs are in `ids`.
fn forest_from_ids(forest: &ProcessForest, ids: &BTreeSet<u32>) -> (r: ProcessForest)
    requires
        forest.wf(),
    ensures
        r.wf(),
        r.processes@ == forest.processes@.restrict(ids@),
        r@ == forest_of(forest.processes@.restrict(ids@)),
{
    let ghost m = forest.processes@;
    let list = sorted_elements(ids);
    let mut kept: BTreeMap<u32, Process> = BTreeMap::new();
    let mut i: usize = 0;
    while i < list.len()
        invariant
            forest.wf(),
            m == forest.processes@,
            0 <= i <= list@.len(),
            forall|x: u32| list@.contains(x) <==> ids@.contains(x),
            forall|x: u32|
                #[trigger] kept@.contains_key(x) <==> m.contains_key(x) && exists|u: int|
                    0 <= u < i && list@[u] == x,
            forall|x: u32| #[trigger] kept@.contains_key(x) ==> kept@[x] == m[x],
        decreases list@.len() - i,
    {
        let pid = list[i];
        match forest.processes.get(&pid) {
            Some(process) => {
                kept.insert(pid, process.clone());
            },
            None => {},
        }
        proof {
            assert forall|x: u32|
                #[trigger] kept@.contains_key(x) <==> m.contains_key(x) && exists|u: int|
                    0 <= u < i + 1 && list@[u] == x by {
                if exists|u: int| 0 <= u < i + 1 && list@[u] == x {
                    let u = choose|u: int| 0 <= u < i + 1 && list@[u] == x;
                    if u < i {
                        assert(exists|u2: int| 0 <= u2 < i && list@[u2] == x);
                    }
                }
            }
        }
        i = i + 1;
    }
    assert(kept@ =~= m.restrict(ids@)) by {
        assert forall|x: u32| #[trigger] kept@.contains_key(x) <==> m.restrict(ids@).contains_key(x) by {
            if m.contains_key(x) && ids@.contains(x) {
                assert(list@.contains(x));
                let u = choose|u: int| 0 <= u < list@.len() && list@[u] == x;
            }
            if kept@.contains_key(x) {
                let u = choose|u: int| 0 <= u < list@.len() && list@[u] == x;
                assert(list@.contains(x));
            }
        }
    }
    assert(keyed_by_pid(kept@));
    let r = forest_from_map(kept);
    proof {
        lemma_forest_of(r);
    }
    r
}

/// The families of the processes `matches`: each match that is a process of
/// `forest`, all its ancestors and all its descendants, as a forest of their
/// own. The walk from a match up to its root must end, as it does in the
/// Linux process table, where a chain of parents never closes a cycle.
pub fn prune_for_matches(forest: &ProcessForest, matches: &BTreeSet<u32>) -> (r: ProcessForest)
    requires
        forest.wf(),
        forall|mt: u32|
            matches@.contains(mt) && forest.processes@.contains_key(mt) ==> reaches_root(
                forest.processes@,
                mt,
            ),
    ensures
        r.wf(),
        r.processes@ == forest.processes@.restrict(family_of(forest.processes@, matches@)),
        r@ == forest_of(forest.processes@.restrict(family_of(forest.processes@, matches@))),
{
    let ghost m = forest.processes@;
    let list = sorted_elements(matches);
    let mut included: BTreeSet<u32> = BTreeSet::new();
    let mut i: usize = 0;
    while i < list.len()
        invariant
            forest.wf(),
            m == forest.processes@,
            0 <= i <= list@.len(),
            forall|x: u32| list@.contains(x) <==> matches@.contains(x),
            forall|mt: u32|
                matches@.contains(mt) && m.contains_key(mt) ==> reaches_root(m, mt),
            forall|a: u32|
                #[trigger] included@.contains(a) <==> exists|u: int|
                    0 <= u < i && #[trigger] is_ancestor(m, a, list@[u]),
        decreases list@.len() - i,
    {
        let mt = list[i];
        assert(list@.contains(mt));
        include_ancestors(forest, mt, &mut included);
        proof {
            assert forall|a: u32|
                #[trigger] included@.contains(a) <==> exists|u: int|
                    0 <= u < i + 1 && #[trigger] is_ancestor(m, a, list@[u]) by {
                if exists|u: int| 0 <= u < i + 1 && #[trigger] is_ancestor(m, a, list@[u]) {
                    let u = choose|u: int| 0 <= u < i + 1 && #[trigger] is_ancestor(m, a, list@[u]);
                    if u < i {
                        assert(exists|u2: int| 0 <= u2 < i && #[trigger] is_ancestor(m, a, list@[u2]));
                    }
                }
            }
        }
        i = i + 1;
    }
    let below = collect_levels(forest, matches, None);
    let below_list = sorted_elements(&below);
    let ghost above = included@;
    let mut j: usize = 0;
    while j < below_list.len()
        invariant
            0 <= j <= below_list@.len(),
            forall|x: u32| below_list@.contains(x) <==> below@.contains(x),
            forall|a: u32|
                #[trigger] included@.contains(a) <==> above.contains(a) || exists|u: int|
                    0 <= u < j && below_list@[u] == a,
        decreases below_list@.len() - j,
    {
        included.insert(below_list[j]);
        proof {
            assert forall|a: u32|
                #[trigger] included@.contains(a) <==> above.contains(a) || exists|u: int|
                    0 <= u < j + 1 && below_list@[u] == a by {
                if exists|u: int| 0 <= u < j + 1 && below_list@[u] == a {
                    let u = choose|u: int| 0 <= u < j + 1 && below_list@[u] == a;
                    if u < j {
                        assert(exists|u2: int| 0 <= u2 < j && below_list@[u2] == a);
                    }
                }
            }
        }
        j = j + 1;
    }
    proof {
        let fam = family_of(m, matches@);
        assert(m.restrict(included@) =~= m.restrict(fam)) by {
            assert forall|a: u32| m.contains_key(a) implies (included@.contains(a) <==> fam.contains(a)) by {
                if exists|mt: u32| #[trigger] matches@.contains(mt) && is_ancestor(m, a, mt) {
                    let mt = choose|mt: u32| #[trigger] matches@.contains(mt) && is_ancestor(m, a, mt);
                    assert(list@.contains(mt));
                    let u = choose|u: int| 0 <= u < list@.len() && list@[u] == mt;
                    assert(above.contains(a));
                }
                if is_descendant(m, matches@, a) {
                    let k = choose|k: nat| #[trigger] at_level(m, matches@, a, k);
                    assert(below@.contains(a));
                    assert(below_list@.contains(a));
                    let u = choose|u: int| 0 <= u < below_list@.len() && below_list@[u] == a;
                }
                if included@.contains(a) {
                    if above.contains(a) {
                        let u = choose|u: int| 0 <= u < list@.len() && #[trigger] is_ancestor(m, a, list@[u]);
                        assert(list@.contains(list@[u]));
                        assert(matches@.contains(list@[u]));
                    } else {
                        let u = choose|u: int| 0 <= u < below_list@.len() && below_list@[u] == a;
                        assert(below_list@.contains(a));
                        let k = choose|k: nat| #[trigger] at_level(m, matches@, a, k);
                        assert(is_descendant(m, matches@, a));
                    }
                }
            }
        }
    }
    forest_from_ids(forest, &included)
}

/// The forest cut below `max_depth` levels: with no limit the forest itself,
/// with a limit of `d` the processes fewer than `d` levels below a root, so
/// that 0 leaves no process and 1 only the roots.
pub fn limit_depth(forest: &ProcessForest, max_depth: Option<usize>) -> (r: ProcessForest)
    requires
        forest.wf(),
    ensures
        r.wf(),
        match max_depth {
            None => r@ == forest@,
            Some(d) => r.processes@ == forest.processes@.restrict(top_levels(forest.processes@, d as nat))
                && r@ == forest_of(forest.processes@.restrict(top_levels(forest.processes@, d as nat))),
        },
{
    let ghost m = forest.processes@;
    match max_depth {
        None => forest.clone(),
        Some(d) => {
            if d == 0 {
                let r = build_forest(Vec::new());
                assert(r.processes@ =~= m.restrict(top_levels(m, 0)));
                return r;
            }
            let mut tops: BTreeSet<u32> = BTreeSet::new();
            let mut i: usize = 0;
            while i < forest.roots.len()
                invariant
                    forest.wf(),
                    m == forest.processes@,
                    0 <= i <= forest.roots@.len(),
                    forall|x: u32| tops@.contains(x) <==> exists|u: int| 0 <= u < i && forest.roots@[u] == x,
                decreases forest.roots@.len() - i,
            {
                tops.insert(forest.roots[i]);
                proof {
                    assert forall|x: u32|
                        tops@.contains(x) <==> exists|u: int| 0 <= u < i + 1 && forest.roots@[u] == x by {
                        if exists|u: int| 0 <= u < i + 1 && forest.roots@[u] == x {
                            let u = choose|u: int| 0 <= u < i + 1 && forest.roots@[u] == x;
                            if u < i {
                                assert(exists|u2: int| 0 <= u2 < i && forest.roots@[u2] == x);
                            }
                        }
                    }
                }
                i = i + 1;
            }
            assert(tops@ =~= root_set(m)) by {
                assert forall|x: u32| tops@.contains(x) <==> root_set(m).contains(x) by {
                    if tops@.contains(x) {
                        let u = choose|u: int| 0 <= u < forest.roots@.len() && forest.roots@[u] == x;
                        assert(forest@.roots.contains(x));
                    }
                    if root_set(m).contains(x) {
                        assert(forest@.roots.contains(x));
                        let u = choose|u: int| 0 <= u < forest.roots@.len() && forest.roots@[u] == x;
                    }
                }
            }
            let kept = collect_levels(forest, &tops, Some(d));
            assert(kept@ =~= top_levels(m, d as nat)) by {
                assert forall|x: u32| kept@.contains(x) <==> top_levels(m, d as nat).contains(x) by {
                    if kept@.contains(x) {
                        let i = choose|i: nat| #[trigger] at_level(m, tops@, x, i) && i < d;
                        assert(within_depth(m, root_set(m), x, d as nat));
                    }
                    if top_levels(m, d as nat).contains(x) {
                        let i = choose|i: nat| i < d && #[trigger] at_level(m, root_set(m), x, i);
                        assert(at_level(m, tops@, x, i));
                    }
                }
            }
            forest_from_ids(forest, &kept)
        },
    }
}

/// The process reached from `p` by following parent links `k` times.
spec fn parent_step(m: Map<u32, Process>, p: u32, k: nat) -> u32
    decreases k,
{
    if k == 0 {
        p
    } else {
        parent_step(m, m[p].ppid, (k - 1) as nat)
    }
}

proof fn lemma_parent_step_shift(m: Map<u32, Process>, p: u32, a: nat, b: nat)
    ensures
        parent_step(m, p, a + b) == parent_step(m, parent_step(m, p, a), b),
    decreases a,
{
    if a > 0 {
        lemma_parent_step_shift(m, m[p].ppid, (a - 1) as nat, b);
        assert((a + b - 1) as nat == (a - 1) as nat + b);
    }
}

proof fn lemma_level_chain(m: Map<u32, Process>, p: u32, d: nat)
    requires
        at_level(m, root_set(m), p, d),
    ensures
        is_root(m, parent_step(m, p, d)),
        forall|j: nat|
            j < d ==> m.contains_key(#[trigger] parent_step(m, p, j)) && parent_present(
                m,
                parent_step(m, p, j),
            ),
    decreases d,
{
    if d > 0 {
        let q = m[p].ppid;
        lemma_level_chain(m, q, (d - 1) as nat);
        assert forall|j: nat| j < d implies m.contains_key(#[trigger] parent_step(m, p, j))
            && parent_present(m, parent_step(m, p, j)) by {
            if j > 0 {
                assert(parent_step(m, p, j) == parent_step(m, q, (j - 1) as nat));
            }
        }
    }
}

/// A process `d` levels below a root lies fewer levels down than there are
/// processes: the chain of parents from it to its root never repeats a
/// process.
pub proof fn lemma_root_depth_bound(m: Map<u32, Process>, p: u32, d: nat)
    requires
        m.dom().finite(),
        at_level(m, root_set(m), p, d),
    ensures
        d < m.dom().len(),
{
    lemma_level_chain(m, p, d);
    let chain = Seq::new(d + 1, |j: int| parent_step(m, p, j as nat));
    assert forall|i: int, j: int| 0 <= i < j < chain.len() implies chain[i] != chain[j] by {
        if chain[i] == chain[j] {
            let t = (d - j) as nat;
            lemma_parent_step_shift(m, p, i as nat, t);
            lemma_parent_step_shift(m, p, j as nat, t);
            assert((j as nat + t) == d);
            assert(parent_step(m, p, (i as nat + t) as nat) == parent_step(m, p, d));
            assert((i as nat + t) < d);
            assert(parent_present(m, parent_step(m, p, (i as nat + t) as nat)));
        }
    }
    assert(chain.no_duplicates()) by {
        assert forall|i: int, j: int| 0 <= i < chain.len() && 0 <= j < chain.len() && i != j implies chain[i]
            != chain[j] by {
            if i > j {
                assert(chain[j] != chain[i]);
            }
        }
    }
    chain.unique_seq_to_set();
    assert(chain.to_set().subset_of(m.dom())) by {
        assert forall|x: u32| chain.to_set().contains(x) implies m.dom().contains(x) by {
            let j = choose|j: int| 0 <= j < chain.len() && chain[j] == x;
            if j < d {
                assert(m.contains_key(parent_step(m, p, j as nat)));
            }
        }
    }
    vstd::set_lib::lemma_len_subset(chain.to_set(), m.dom());
}

/// Walking `k + 1` steps up from `p` is one step to its parent, then `k`.
proof fn lemma_ancestor_first_step(m: Map<u32, Process>, p: u32, k: nat)
    ensures
        ancestor_at(m, p, k + 1) == (if m.contains_key(p) && parent_present(m, p) {
            ancestor_at(m, m[p].ppid, k)
        } else {
            None
        }),
    decreases k,
{
    let next = ancestor_at(m, p, k + 1);
    assert(next == match ancestor_at(m, p, k) {
        Some(a) => if parent_present(m, a) {
            Some(m[a].ppid)
        } else {
            None
        },
        None => None,
    });
    if k > 0 {
        lemma_ancestor_first_step(m, p, (k - 1) as nat);
        assert((k - 1 + 1) as nat == k);
        if m.contains_key(p) && parent_present(m, p) {
            let q = m[p].ppid;
            assert(ancestor_at(m, q, k) == match ancestor_at(m, q, (k - 1) as nat) {
                Some(a) => if parent_present(m, a) {
                    Some(m[a].ppid)
                } else {
                    None
                },
                None => None,
            });
        }
    }
}

/// A process whose walk up reaches a root after `k` steps lies `k` levels
/// below the roots.
proof fn lemma_ancestor_root_level(m: Map<u32, Process>, p: u32, k: nat)
    requires
        ancestor_at(m, p, k) matches Some(r) && is_root(m, r),
    ensures
        at_level(m, root_set(m), p, k),
    decreases k,
{
    if k > 0 {
        lemma_ancestor_first_step(m, p, (k - 1) as nat);
        assert((k - 1 + 1) as nat == k);
        lemma_ancestor_root_level(m, m[p].ppid, (k - 1) as nat);
    }
}

/// Whether the walk up from `pid` through its parents ends at a root, found
/// by taking at most as many steps as there are processes.
pub fn walk_ends_at_root(forest: &ProcessForest, pid: u32) -> (r: bool)
    requires
        forest.wf(),
    ensures
        r == reaches_root(forest.processes@, pid),
{
    let ghost m = forest.processes@;
    if !forest.processes.contains_key(&pid) {
        proof {
            assert forall|k: nat| #[trigger] ancestor_at(m, pid, k) is None by {
                lemma_walk_absent(m, pid, k);
            }
        }
        return false;
    }
    let n = forest.processes.len();
    let mut current = pid;
    let mut steps: usize = 0;
    loop
        invariant
            forest.wf(),
            m == forest.processes@,
            n == m.dom().len(),
            steps <= n,
            m.contains_key(current),
            ancestor_at(m, pid, steps as nat) == Some(current),
            forall|j: nat|
                j < steps ==> (#[trigger] ancestor_at(m, pid, j) matches Some(a) && parent_present(
                    m,
                    a,
                )),
        decreases n - steps,
    {
        let process = forest.processes.get(&current).unwrap();
        assert(process.pid == current);
        if !(process.ppid != process.pid && forest.processes.contains_key(&process.ppid)) {
            assert(is_root(m, current));
            return true;
        }
        if steps == n {
            proof {
                assert forall|k: nat| !(#[trigger] ancestor_at(m, pid, k) matches Some(r) && is_root(
                    m,
                    r,
                )) by {
                    if ancestor_at(m, pid, k) matches Some(r) && is_root(m, r) {
                        lemma_ancestor_root_level(m, pid, k);
                        lemma_root_depth_bound(m, pid, k);
                    }
                }
            }
            return false;
        }
        current = process.ppid;
        steps = steps + 1;
    }
}

/// Whether `path` runs down the forest: each PID but the last is a process
/// of `v` whose children list the next one.
pub open spec fn descends(v: ForestView, path: Seq<u32>) -> bool {
    &&& path.len() > 0
    &&& forall|i: int|
        #![trigger path[i]]
        0 <= i < path.len() - 1 ==> v.processes.contains_key(path[i]) && v.children.contains_key(
            path[i],
        ) && v.children[path[i]].contains(path[i + 1])
}

/// Whether following the children from `pid` never comes back to a process
/// passed before.
pub open spec fn acyclic_below(v: ForestView, pid: u32) -> bool {
    forall|path: Seq<u32>| #[trigger] descends(v, path) && path[0] == pid ==> path.no_duplicates()
}

/// Whether following the children from any root never comes back to a
/// process passed before.
pub open spec fn roots_acyclic(v: ForestView) -> bool {
    forall|i: int| 0 <= i < v.roots.len() ==> acyclic_below(v, #[trigger] v.roots[i])
}

/// A path of distinct processes is no longer than the number of processes.
pub proof fn lemma_path_len(m: Map<u32, Process>, path: Seq<u32>)
    requires
        m.dom().finite(),
        path.no_duplicates(),
        forall|i: int| 0 <= i < path.len() ==> m.contains_key(#[trigger] path[i]),
    ensures
        path.len() <= m.dom().len(),
{
    path.unique_seq_to_set();
    assert(path.to_set().subset_of(m.dom()));
    vstd::set_lib::lemma_len_subset(path.to_set(), m.dom());
}

/// No process lies at two different levels below the roots.
proof fn lemma_level_unique(m: Map<u32, Process>, p: u32, i: nat, j: nat)
    requires
        at_level(m, root_set(m), p, i),
        at_level(m, root_set(m), p, j),
    ensures
        i == j,
    decreases i,
{
    if i > 0 && j > 0 {
        lemma_level_unique(m, m[p].ppid, (i - 1) as nat, (j - 1) as nat);
    }
}

/// In a well-formed forest, the `k`-th PID of a path down from a root lies
/// `k` levels below the roots.
proof fn lemma_path_levels(v: ForestView, path: Seq<u32>, k: nat)
    requires
        forest_shape(v),
        descends(v, path),
        v.roots.contains(path[0]),
        k < path.len(),
    ensures
        at_level(v.processes, root_set(v.processes), path[k as int], k),
    decreases k,
{
    if k > 0 {
        let q = path[k - 1];
        lemma_path_levels(v, path, (k - 1) as nat);
        assert(v.children[q].contains(path[k as int]));
        assert(is_child(v.processes, path[k as int], q));
    }
}

/// In a well-formed forest, following the children from a root never comes
/// back to a process passed before.
pub proof fn lemma_wf_roots_acyclic(f: &ProcessForest)
    requires
        f.wf(),
    ensures
        roots_acyclic(f@),
{
    let v = f@;
    let m = v.processes;
    assert forall|i: int| 0 <= i < v.roots.len() implies acyclic_below(v, #[trigger] v.roots[i]) by {
        assert forall|path: Seq<u32>| #[trigger] descends(v, path) && path[0] == v.roots[i]
            implies path.no_duplicates() by {
            assert(v.roots.contains(path[0]));
            assert forall|a: int, b: int|
                0 <= a < path.len() && 0 <= b < path.len() && a != b implies path[a] != path[b] by {
                lemma_path_levels(v, path, a as nat);
                lemma_path_levels(v, path, b as nat);
                if path[a] == path[b] {
                    lemma_level_unique(m, path[a], a as nat, b as nat);
                }
            }
        }
    }
}

/// The PIDs of the processes of `m` whose names contain `pattern`, compared
/// in lowercase.
pub open spec fn matched_pids(m: Map<u32, Process>, pattern: Seq<char>) -> Set<u32> {
    Set::new(
        |x: u32|
            exists|k: u32|
                #![trigger m[k]]
                m.contains_key(k) && m[k].pid == x && name_matches(m[k].name@, pattern),
    )
}

/// Searching ignores case: patterns with the same lowercase form match the
/// same processes.
pub proof fn lemma_matching_ignores_case(m: Map<u32, Process>, p: Seq<char>, q: Seq<char>)
    requires
        lowercase(p) == lowercase(q),
    ensures
        matched_pids(m, p) == matched_pids(m, q),
{
    assert(matched_pids(m, p) =~= matched_pids(m, q));
}

/// Every process of a list is in its forest, under its own PID.
pub proof fn lemma_by_pid_domain(s: Seq<Process>)
    ensures
        forall|x: u32|
            by_pid(s).contains_key(x) <==> exists|i: int| 0 <= i < s.len() && #[trigger] s[i].pid == x,
    decreases s.len(),
{
    if s.len() > 0 {
        let t = s.drop_last();
        lemma_by_pid_domain(t);
        assert forall|x: u32|
            by_pid(s).contains_key(x) <==> exists|i: int| 0 <= i < s.len() && #[trigger] s[i].pid == x by {
            if exists|i: int| 0 <= i < s.len() && #[trigger] s[i].pid == x {
                let i = choose|i: int| 0 <= i < s.len() && #[trigger] s[i].pid == x;
                if i < s.len() - 1 {
                    assert(t[i].pid == x);
                }
            }
            if by_pid(t).contains_key(x) {
                let i = choose|i: int| 0 <= i < t.len() && #[trigger] t[i].pid == x;
                assert(s[i].pid == x);
            }
        }
    }
}

/// Pruning keeps the parent of every process it keeps, so that no kept
/// process loses its place under its parent.
pub proof fn lemma_family_keeps_parents(m: Map<u32, Process>, matches: Set<u32>, p: u32)
    requires
        m.contains_key(p),
        parent_present(m, p),
        family_of(m, matches).contains(p),
    ensures
        family_of(m, matches).contains(m[p].ppid),
{
    let q = m[p].ppid;
    if exists|mt: u32| #[trigger] matches.contains(mt) && is_ancestor(m, p, mt) {
        let mt = choose|mt: u32| #[trigger] matches.contains(mt) && is_ancestor(m, p, mt);
        let k = choose|k: nat| #[trigger] ancestor_at(m, mt, k) == Some(p);
        assert(ancestor_at(m, mt, k + 1) == Some(q));
        assert(is_ancestor(m, q, mt));
    } else {
        let i = choose|i: nat| #[trigger] at_level(m, matches, p, i);
        if i == 0 {
            assert(ancestor_at(m, p, 0) == Some(p));
            assert(ancestor_at(m, p, 1) == Some(q));
            assert(is_ancestor(m, q, p));
        } else {
            assert(at_level(m, matches, q, (i - 1) as nat));
            assert(is_descendant(m, matches, q));
        }
    }
}

/// A process that pruning keeps is a root of the pruned forest exactly when
/// it is a root of the whole forest.
pub proof fn lemma_family_roots(m: Map<u32, Process>, matches: Set<u32>, p: u32)
    requires
        m.contains_key(p),
        family_of(m, matches).contains(p),
    ensures
        is_root(m.restrict(family_of(m, matches)), p) == is_root(m, p),
{
    if parent_present(m, p) {
        lemma_family_keeps_parents(m, matches, p);
    }
}

/// Cutting at a depth keeps the parent of every process it keeps.
pub proof fn lemma_top_levels_keep_parents(m: Map<u32, Process>, d: nat, p: u32)
    requires
        m.contains_key(p),
        parent_present(m, p),
        top_levels(m, d).contains(p),
    ensures
        top_levels(m, d).contains(m[p].ppid),
{
    let i = choose|i: nat| i < d && #[trigger] at_level(m, root_set(m), p, i);
    if i == 0 {
        assert(root_set(m).contains(p));
    } else {
        assert(at_level(m, root_set(m), m[p].ppid, (i - 1) as nat));
    }
}

/// A depth of one keeps exactly the roots.
pub proof fn lemma_top_level_is_roots(m: Map<u32, Process>)
    ensures
        top_levels(m, 1) == root_set(m),
{
    assert forall|p: u32| top_levels(m, 1).contains(p) <==> root_set(m).contains(p) by {
        if root_set(m).contains(p) {
            assert(at_level(m, root_set(m), p, 0));
        }
    }
    assert(top_levels(m, 1) =~= root_set(m));
}

/// A deeper cut keeps every process that a shallower one keeps.
pub proof fn lemma_top_levels_grow(m: Map<u32, Process>, d1: nat, d2: nat)
    requires
        d1 <= d2,
    ensures
        top_levels(m, d1).subset_of(top_levels(m, d2)),
{
    assert forall|p: u32| top_levels(m, d1).contains(p) implies top_levels(m, d2).contains(p) by {
        let i = choose|i: nat| i < d1 && #[trigger] at_level(m, root_set(m), p, i);
    }
}

/// Whether `needle` occurs in `hay` from position `i` on, character by
/// character.
pub open spec fn occurs_at(hay: Seq<char>, needle: Seq<char>, i: int) -> bool {
    &&& 0 <= i
    &&& i + needle.len() <= hay.len()
    &&& forall|j: int| 0 <= j < needle.len() ==> hay[i + j] == needle[j]
}

/// A name matches a pattern exactly when the lowercase pattern occurs in the
/// lowercase name at some position, the start or any other.
pub proof fn lemma_match_anywhere(name: Seq<char>, pattern: Seq<char>)
    ensures
        name_matches(name, pattern) <==> exists|i: int|
            #[trigger] occurs_at(lowercase(name), lowercase(pattern), i),
{
    let h = lowercase(name);
    let n = lowercase(pattern);
    if name_matches(name, pattern) {
        let i = choose|i: int|
            0 <= i && i + n.len() <= h.len() && #[trigger] h.subrange(i, i + n.len()) == n;
        assert forall|j: int| 0 <= j < n.len() implies h[i + j] == n[j] by {
            assert(h.subrange(i, i + n.len())[j] == h[i + j]);
        }
        assert(occurs_at(h, n, i));
    }
    if exists|i: int| #[trigger] occurs_at(h, n, i) {
        let i = choose|i: int| #[trigger] occurs_at(h, n, i);
        assert(h.subrange(i, i + n.len()) =~= n);
    }
}

/// The search finds a process exactly when the lowercase pattern occurs in
/// its lowercase name at some position.
pub proof fn lemma_matched_anywhere(m: Map<u32, Process>, pattern: Seq<char>, k: u32)
    requires
        keyed_by_pid(m),
    ensures
        matched_pids(m, pattern).contains(k) <==> m.contains_key(k) && exists|i: int|
            #[trigger] occurs_at(lowercase(m[k].name@), lowercase(pattern), i),
{
    lemma_match_anywhere(m[k].name@, pattern);
    if matched_pids(m, pattern).contains(k) {
        let q = choose|q: u32|
            #![trigger m[q]]
            m.contains_key(q) && m[q].pid == k && name_matches(m[q].name@, pattern);
        assert(m[q].pid == q);
    }
    if m.contains_key(k) && name_matches(m[k].name@, pattern) {
        assert(m[k].pid == k);
    }
}

/// Pruning keeps every process whose chain of parents reaches a match after
/// any number of steps: the matches, their children, grandchildren and so
/// on down.
pub proof fn lemma_prune_keeps_descendants(
    m: Map<u32, Process>,
    matches: Set<u32>,
    p: u32,
    i: nat,
)
    requires
        m.contains_key(p),
        at_level(m, matches, p, i),
    ensures
        m.restrict(family_of(m, matches)).contains_key(p),
{
    assert(is_descendant(m, matches, p));
}

/// Pruning keeps every process on the chain of parents of a match, up to
/// its root.
pub proof fn lemma_prune_keeps_ancestors(
    m: Map<u32, Process>,
    matches: Set<u32>,
    mt: u32,
    k: nat,
    a: u32,
)
    requires
        matches.contains(mt),
        ancestor_at(m, mt, k) == Some(a),
    ensures
        m.restrict(family_of(m, matches)).contains_key(a),
{
    assert(is_ancestor(m, a, mt));
    lemma_ancestor_in(m, mt, k, a);
}

/// What the walk up reaches is a process.
proof fn lemma_ancestor_in(m: Map<u32, Process>, p: u32, k: nat, a: u32)
    requires
        ancestor_at(m, p, k) == Some(a),
    ensures
        m.contains_key(a),
    decreases k,
{
    if k > 0 {
        let q = ancestor_at(m, p, (k - 1) as nat)->0;
        lemma_ancestor_in(m, p, (k - 1) as nat, q);
    }
}

/// Pruning keeps nothing else: each process it keeps is on the chain of
/// parents of a match, or reaches a match by its chain of parents.
pub proof fn lemma_prune_keeps_only_families(m: Map<u32, Process>, matches: Set<u32>, p: u32)
    requires
        m.restrict(family_of(m, matches)).contains_key(p),
    ensures
        m.contains_key(p),
        (exists|mt: u32, k: nat|
            #![trigger matches.contains(mt), ancestor_at(m, mt, k)]
            matches.contains(mt) && ancestor_at(m, mt, k) == Some(p)) || (exists|i: nat|
            #[trigger] at_level(m, matches, p, i)),
{
    if exists|mt: u32| #[trigger] matches.contains(mt) && is_ancestor(m, p, mt) {
        let mt = choose|mt: u32| #[trigger] matches.contains(mt) && is_ancestor(m, p, mt);
        let k = choose|k: nat| #[trigger] ancestor_at(m, mt, k) == Some(p);
        assert(matches.contains(mt) && ancestor_at(m, mt, k) == Some(p));
    }
}

/// Pruning leaves each process it keeps at the same level below the roots
/// as in the whole forest.
pub proof fn lemma_family_levels(m: Map<u32, Process>, matches: Set<u32>, p: u32, i: nat)
    requires
        m.contains_key(p),
        family_of(m, matches).contains(p),
    ensures
        at_level(
            m.restrict(family_of(m, matches)),
            root_set(m.restrict(family_of(m, matches))),
            p,
            i,
        ) <==> at_level(m, root_set(m), p, i),
    decreases i,
{
    let f = m.restrict(family_of(m, matches));
    lemma_family_roots(m, matches, p);
    if parent_present(m, p) {
        lemma_family_keeps_parents(m, matches, p);
    }
    assert(parent_present(f, p) == parent_present(m, p));
    if i > 0 && parent_present(m, p) {
        lemma_family_levels(m, matches, m[p].ppid, (i - 1) as nat);
    }
}

/// Pruning leaves each process it keeps fewer than `d` levels below the
/// roots exactly when it lies so in the whole forest.
pub proof fn lemma_family_top_levels(m: Map<u32, Process>, matches: Set<u32>, p: u32, d: nat)
    requires
        m.contains_key(p),
        family_of(m, matches).contains(p),
    ensures
        top_levels(m.restrict(family_of(m, matches)), d).contains(p) <==> top_levels(m, d).contains(
            p,
        ),
{
    let f = m.restrict(family_of(m, matches));
    if top_levels(f, d).contains(p) {
        let i = choose|i: nat| i < d && #[trigger] at_level(f, root_set(f), p, i);
        lemma_family_levels(m, matches, p, i);
    }
    if top_levels(m, d).contains(p) {
        let i = choose|i: nat| i < d && #[trigger] at_level(m, root_set(m), p, i);
        lemma_family_levels(m, matches, p, i);
    }
}

} // verus!
