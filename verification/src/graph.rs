//! The dependency graph: nodes under concrete `name@version` keys, each
//! listing its dependency keys, and a deterministic installation order.
//!
//! Keys are unique; inserting under a present key replaces the node. The
//! installation order is a depth-first post-order over the nodes in
//! insertion order, tolerant of cycles by visit marking: on an acyclic
//! graph every dependency precedes its dependents.

use crate::registry::{ManifestV, PackageVersion, RequestPackage, RequestV};
use crate::registry::spec_key;
use crate::semver::{push_char, select_version, str_eq, spec_format_version, spec_parse_version, spec_satisfies_composite, sat_at, cand_at};
use crate::specifier::{lemma_rfind_char, rfind_char, rfind_char_in};
use vstd::prelude::*;
use vstd::string::*;

verus! {

/// The views of a sequence of strings.
pub open spec fn strs_view(s: Seq<String>) -> Seq<Seq<char>> {
    s.map_values(|x: String| x@)
}

/// One resolved package: its concrete key, the keys of what it depends on,
/// and its manifest.
pub struct DAGNode {
    pub package: String,
    pub dependencies: Vec<String>,
    pub info: PackageVersion,
}

/// Mathematical image of a [`DAGNode`].
pub ghost struct NodeV {
    pub package: Seq<char>,
    pub dependencies: Seq<Seq<char>>,
    pub info: ManifestV,
}

impl View for DAGNode {
    type V = NodeV;

    open spec fn view(&self) -> NodeV {
        NodeV {
            package: self.package@,
            dependencies: strs_view(self.dependencies@),
            info: self.info@,
        }
    }
}

/// Index of the first node under `key`, if any.
pub open spec fn node_index(s: Seq<DAGNode>, key: Seq<char>) -> Option<int>
    decreases s.len(),
{
    if s.len() == 0 {
        None
    } else if s.first().package@ == key {
        Some(0)
    } else {
        match node_index(s.drop_first(), key) {
            None => None,
            Some(i) => Some(i + 1),
        }
    }
}

/// What `node_index` returns: the first node under the key, or a guarantee
/// that none carries it.
pub proof fn lemma_node_index(s: Seq<DAGNode>, key: Seq<char>)
    ensures
        match node_index(s, key) {
            Some(i) => 0 <= i < s.len() && s[i].package@ == key && forall|k: int|
                0 <= k < i ==> (#[trigger] s[k]).package@ != key,
            None => forall|k: int| 0 <= k < s.len() ==> (#[trigger] s[k]).package@ != key,
        },
    decreases s.len(),
{
    if s.len() > 0 && s.first().package@ != key {
        lemma_node_index(s.drop_first(), key);
        assert(forall|k: int| 1 <= k < s.len() ==> #[trigger] s[k] == s.drop_first()[k - 1]);
    }
}

/// A scan that stopped at the first node under the key computed
/// `node_index`.
pub proof fn lemma_node_index_at(s: Seq<DAGNode>, key: Seq<char>, i: int)
    requires
        0 <= i < s.len(),
        s[i].package@ == key,
        forall|k: int| 0 <= k < i ==> (#[trigger] s[k]).package@ != key,
    ensures
        node_index(s, key) == Some(i),
{
    lemma_node_index(s, key);
    match node_index(s, key) {
        Some(j) => {
            if j < i {
                assert(s[j].package@ == key);
            } else if i < j {
                assert(s[i].package@ != key);
            }
        },
        None => {
            assert(s[i].package@ != key);
        },
    }
}

/// The resolver's output: nodes in insertion order, keys unique.
pub struct DependencyGraph {
    pub nodes: Vec<DAGNode>,
}

impl DependencyGraph {
    /// The node keys in insertion order.
    pub open spec fn keys(&self) -> Seq<Seq<char>> {
        self.nodes@.map_values(|n: DAGNode| n.package@)
    }

    /// Keys are pairwise distinct.
    pub open spec fn wf(&self) -> bool {
        forall|i: int, j: int|
            0 <= i < j < self.nodes@.len() ==> (#[trigger] self.nodes@[i]).package@ != (
            #[trigger] self.nodes@[j]).package@
    }

    /// The node stored under `key`, if any.
    pub open spec fn spec_get(&self, key: Seq<char>) -> Option<DAGNode> {
        match node_index(self.nodes@, key) {
            Some(i) => Some(self.nodes@[i]),
            None => None,
        }
    }

    /// Whether a node stands under `key`.
    pub open spec fn has_key(&self, key: Seq<char>) -> bool {
        node_index(self.nodes@, key) is Some
    }

    /// An empty graph.
    pub fn new() -> (r: DependencyGraph)
        ensures
            r.nodes@.len() == 0,
            r.wf(),
    {
        DependencyGraph { nodes: Vec::new() }
    }

    /// An empty graph with room for `capacity` nodes.
    pub fn with_capacity(capacity: usize) -> (r: DependencyGraph)
        ensures
            r.nodes@.len() == 0,
            r.wf(),
    {
        DependencyGraph { nodes: Vec::with_capacity(capacity) }
    }

    /// How many nodes the graph holds.
    pub fn len(&self) -> (r: usize)
        ensures
            r == self.nodes@.len(),
    {
        self.nodes.len()
    }

    /// Inserts a node under its key: a node already under that key is
    /// replaced, else the node is appended. Keys stay unique.
    pub fn add_node(&mut self, node: DAGNode)
        requires
            old(self).wf(),
        ensures
            final(self).wf(),
            match node_index(old(self).nodes@, node.package@) {
                Some(i) => final(self).nodes@ == old(self).nodes@.update(i, node),
                None => final(self).nodes@ == old(self).nodes@.push(node),
            },
    {
        proof {
            lemma_node_index(self.nodes@, node.package@);
        }
        let n = self.nodes.len();
        let mut i: usize = 0;
        while i < n
            invariant
                0 <= i <= n,
                n == self.nodes@.len(),
                self.wf(),
                old(self).nodes@ == self.nodes@,
                forall|k: int| 0 <= k < i ==> (#[trigger] self.nodes@[k]).package@ != node.package@,
            decreases n - i,
        {
            if str_eq(self.nodes[i].package.as_str(), node.package.as_str()) {
                proof {
                    lemma_node_index_at(self.nodes@, node.package@, i as int);
                }
                self.nodes.set(i, node);
                return ;
            }
            i = i + 1;
        }
        self.nodes.push(node);
    }

    /// A shared view of the node under `key`, as `spec_get` names it.
    pub fn get(&self, key: &str) -> (r: Option<&DAGNode>)
        ensures
            match r {
                Some(n) => self.spec_get(key@) == Some(*n),
                None => self.spec_get(key@) is None,
            },
    {
        let n = self.nodes.len();
        let mut i: usize = 0;
        while i < n
            invariant
                0 <= i <= n,
                n == self.nodes@.len(),
                forall|k: int| 0 <= k < i ==> (#[trigger] self.nodes@[k]).package@ != key@,
            decreases n - i,
        {
            if str_eq(self.nodes[i].package.as_str(), key) {
                proof {
                    lemma_node_index_at(self.nodes@, key@, i as int);
                }
                return Some(&self.nodes[i]);
            }
            i = i + 1;
        }
        proof {
            lemma_node_index(self.nodes@, key@);
        }
        None
    }

    /// Whether a node stands under `key`, as `has_key` names it.
    pub fn contains_key(&self, key: &str) -> (r: bool)
        ensures
            r == self.has_key(key@),
    {
        match self.get(key) {
            Some(_) => true,
            None => false,
        }
    }

    /// Key uniqueness: each node is the one its key finds.
    pub proof fn lemma_key_uniqueness(&self)
        requires
            self.wf(),
        ensures
            forall|i: int|
                0 <= i < self.nodes@.len() ==> self.spec_get(
                    (#[trigger] self.nodes@[i]).package@,
                ) == Some(self.nodes@[i]),
    {
        assert forall|i: int| 0 <= i < self.nodes@.len() implies self.spec_get(
            (#[trigger] self.nodes@[i]).package@,
        ) == Some(self.nodes@[i]) by {
            lemma_node_index_at(self.nodes@, self.nodes@[i].package@, i);
        }
    }
}

/// Whether `child` is a listed dependency of the node under `parent`.
pub open spec fn is_dep_of(g: &DependencyGraph, parent: Seq<char>, child: Seq<char>) -> bool {
    g.spec_get(parent) matches Some(n) && exists|j: int|
        0 <= j < n.dependencies@.len() && (#[trigger] n.dependencies@[j])@ == child
}

impl DependencyGraph {
    /// A witness of acyclicity: a rank that strictly drops along every
    /// edge whose target is in the graph.
    pub open spec fn respects_rank(&self, rank: Map<Seq<char>, nat>) -> bool {
        forall|i: int, j: int|
            #![trigger self.nodes@[i].dependencies@[j]]
            0 <= i < self.nodes@.len() && 0 <= j < self.nodes@[i].dependencies@.len()
                && self.has_key(self.nodes@[i].dependencies@[j]@) ==> rank[
                self.nodes@[i].dependencies@[j]@
            ] < rank[self.nodes@[i].package@]
    }
}

/// Whether `key` stands in the first `limit` places of `okeys`.
pub open spec fn emitted_before(okeys: Seq<Seq<char>>, limit: int, key: Seq<char>) -> bool {
    exists|t: int| 0 <= t < limit && okeys[t] == key
}

/// Whether every in-graph dependency of the node emitted at place `oi`
/// was emitted earlier.
pub open spec fn deps_emitted(g: &DependencyGraph, okeys: Seq<Seq<char>>, oi: int) -> bool {
    match g.spec_get(okeys[oi]) {
        Some(n) => forall|j: int|
            0 <= j < n.dependencies@.len() && g.has_key((#[trigger] n.dependencies@[j])@)
                ==> emitted_before(okeys, oi, n.dependencies@[j]@),
        None => true,
    }
}

/// Dependencies precede dependents throughout `okeys`.
pub open spec fn order_sound(g: &DependencyGraph, okeys: Seq<Seq<char>>) -> bool {
    forall|oi: int| 0 <= oi < okeys.len() ==> #[trigger] deps_emitted(g, okeys, oi)
}

/// Each stack entry depends on the next: the path a depth-first descent
/// walked.
pub open spec fn stack_chain(g: &DependencyGraph, stack: Seq<Seq<char>>) -> bool {
    forall|t: int| 0 <= t < stack.len() - 1 ==> #[trigger] is_dep_of(g, stack[t], stack[t + 1])
}

/// The state a depth-first emission keeps: emitted keys are distinct graph
/// keys, the descent stack is disjoint from them, the marked set is their
/// union, the stack is a dependency chain, and under any acyclicity
/// witness the emitted prefix is dependency-ordered.
pub open spec fn dfs_inv(
    g: &DependencyGraph,
    rseq: Seq<String>,
    pseq: Seq<String>,
    stack: Seq<Seq<char>>,
) -> bool {
    let rk = strs_view(rseq);
    let pk = strs_view(pseq);
    &&& rk.no_duplicates()
    &&& forall|t: int| 0 <= t < rk.len() ==> g.has_key(#[trigger] rk[t])
    &&& stack.no_duplicates()
    &&& forall|t: int| 0 <= t < stack.len() ==> g.has_key(#[trigger] stack[t])
    &&& forall|t: int| 0 <= t < rk.len() ==> !stack.contains(#[trigger] rk[t])
    &&& pk.no_duplicates()
    &&& forall|k: Seq<char>| #[trigger] pk.contains(k) ==> rk.contains(k) || stack.contains(k)
    &&& forall|k: Seq<char>| #[trigger] rk.contains(k) ==> pk.contains(k)
    &&& forall|k: Seq<char>| #[trigger] stack.contains(k) ==> pk.contains(k)
    &&& pk.len() <= g.nodes@.len()
    &&& stack_chain(g, stack)
    &&& forall|rank: Map<Seq<char>, nat>|
        #[trigger] g.respects_rank(rank) ==> order_sound(g, rk)
}

/// Distinct keys that all stand in a graph are no more numerous than its
/// nodes.
pub proof fn lemma_distinct_keys_bound(g: &DependencyGraph, pk: Seq<Seq<char>>)
    requires
        g.wf(),
        pk.no_duplicates(),
        forall|t: int| 0 <= t < pk.len() ==> g.has_key(#[trigger] pk[t]),
    ensures
        pk.len() <= g.nodes@.len(),
{
    let keys = g.keys();
    assert(keys.len() == g.nodes@.len());
    assert forall|i: int, j: int| 0 <= i < j < keys.len() implies keys[i] != keys[j] by {
        assert(g.nodes@[i].package@ != g.nodes@[j].package@);
    }
    assert(keys.no_duplicates());
    pk.unique_seq_to_set();
    keys.unique_seq_to_set();
    assert forall|k: Seq<char>| pk.to_set().contains(k) implies keys.to_set().contains(k) by {
        assert(pk.contains(k));
        let t = choose|t: int| 0 <= t < pk.len() && pk[t] == k;
        assert(g.has_key(pk[t]));
        lemma_node_index(g.nodes@, k);
        let i = node_index(g.nodes@, k)->0;
        assert(keys[i] == k);
        assert(keys.contains(k));
    }
    assert(pk.to_set().subset_of(keys.to_set()));
    vstd::set_lib::lemma_len_subset(pk.to_set(), keys.to_set());
}

/// Along a dependency chain any acyclicity witness strictly decreases.
pub proof fn lemma_chain_rank_desc(
    g: &DependencyGraph,
    stack: Seq<Seq<char>>,
    rank: Map<Seq<char>, nat>,
    t1: int,
    t2: int,
)
    requires
        g.wf(),
        stack_chain(g, stack),
        g.respects_rank(rank),
        forall|t: int| 0 <= t < stack.len() ==> g.has_key(#[trigger] stack[t]),
        0 <= t1 < t2 < stack.len(),
    ensures
        rank[stack[t2]] < rank[stack[t1]],
    decreases t2 - t1,
{
    if t2 > t1 + 1 {
        lemma_chain_rank_desc(g, stack, rank, t1, t2 - 1);
    }
    let ta = t2 - 1;
    assert(is_dep_of(g, stack[ta], stack[ta + 1]));
    assert(stack[ta + 1] == stack[t2]);
    assert(is_dep_of(g, stack[ta], stack[t2]));
    lemma_node_index(g.nodes@, stack[ta]);
    let i = node_index(g.nodes@, stack[ta])->0;
    let n = g.nodes@[i];
    assert(g.spec_get(stack[ta]) == Some(n));
    let j = choose|j: int| 0 <= j < n.dependencies@.len() && (#[trigger] n.dependencies@[j])@
        == stack[t2];
    assert(g.nodes@[i].dependencies@[j]@ == stack[t2]);
    assert(rank[stack[t2]] < rank[stack[ta]]);
}

pub(crate) fn contains_str(v: &Vec<String>, key: &str) -> (r: bool)
    ensures
        r == strs_view(v@).contains(key@),
{
    let n = v.len();
    let mut i: usize = 0;
    while i < n
        invariant
            0 <= i <= n,
            n == v@.len(),
            forall|k: int| 0 <= k < i ==> strs_view(v@)[k] != key@,
        decreases n - i,
    {
        if str_eq(v[i].as_str(), key) {
            proof {
                assert(strs_view(v@)[i as int] == key@);
            }
            return true;
        }
        i = i + 1;
    }
    proof {
        if strs_view(v@).contains(key@) {
            let t = choose|t: int| 0 <= t < v@.len() && strs_view(v@)[t] == key@;
            assert(strs_view(v@)[t] != key@);
        }
    }
    false
}

impl DependencyGraph {
    fn dfs_visit(
        &self,
        key: &str,
        result: &mut Vec<String>,
        processed: &mut Vec<String>,
        Ghost(stack): Ghost<Seq<Seq<char>>>,
    )
        requires
            self.wf(),
            self.has_key(key@),
            dfs_inv(self, old(result)@, old(processed)@, stack),
            stack.len() > 0 ==> is_dep_of(self, stack.last(), key@),
        ensures
            dfs_inv(self, final(result)@, final(processed)@, stack),
            old(result)@.len() <= final(result)@.len(),
            forall|t: int|
                0 <= t < old(result)@.len() ==> final(result)@[t] == old(result)@[t],
            forall|k: Seq<char>|
                strs_view(old(processed)@).contains(k) ==> strs_view(
                    final(processed)@,
                ).contains(k),
            strs_view(final(processed)@).contains(key@),
            old(processed)@.len() <= final(processed)@.len(),
        decreases self.nodes@.len() - stack.len(),
    {
        if contains_str(processed, key) {
            return ;
        }
        let ghost r_entry = result@;
        let ghost p_entry = processed@;
        processed.push(String::from_str(key));
        let ghost stack2 = stack.push(key@);
        proof {
            let pk0 = strs_view(p_entry);
            let pk1 = strs_view(processed@);
            let rk = strs_view(r_entry);
            assert(pk1 =~= pk0.push(key@));
            assert forall|k: Seq<char>| #[trigger] pk1.contains(k) implies rk.contains(k)
                || stack2.contains(k) by {
                let t = choose|t: int| 0 <= t < pk1.len() && pk1[t] == k;
                if t < pk0.len() {
                    assert(pk1[t] == pk0[t]);
                    assert(pk0.contains(k));
                    if stack.contains(k) {
                        let u = choose|u: int| 0 <= u < stack.len() && stack[u] == k;
                        assert(stack2[u] == k);
                        assert(stack2.contains(k));
                    }
                } else {
                    assert(pk1[t] == key@);
                    assert(stack2[stack.len() as int] == key@);
                    assert(stack2.contains(k));
                }
            }
            assert forall|k: Seq<char>| #[trigger] stack2.contains(k) implies pk1.contains(k) by {
                let t = choose|t: int| 0 <= t < stack2.len() && stack2[t] == k;
                if t < stack.len() {
                    assert(stack.contains(k));
                    assert(pk0.contains(k));
                    let u = choose|u: int| 0 <= u < pk0.len() && pk0[u] == k;
                    assert(pk1[u] == k);
                } else {
                    assert(pk1[pk0.len() as int] == key@);
                }
            }
            assert forall|k: Seq<char>| #[trigger] rk.contains(k) implies pk1.contains(k) by {
                assert(pk0.contains(k));
                let u = choose|u: int| 0 <= u < pk0.len() && pk0[u] == k;
                assert(pk1[u] == k);
            }
            assert forall|t: int| 0 <= t < pk1.len() implies self.has_key(#[trigger] pk1[t]) by {
                if t < pk0.len() {
                    assert(pk1[t] == pk0[t]);
                    assert(pk0.contains(pk0[t]));
                    assert(rk.contains(pk0[t]) || stack.contains(pk0[t]));
                    if rk.contains(pk0[t]) {
                        let u = choose|u: int| 0 <= u < rk.len() && rk[u] == pk0[t];
                        assert(self.has_key(rk[u]));
                    } else {
                        let u = choose|u: int| 0 <= u < stack.len() && stack[u] == pk0[t];
                        assert(self.has_key(stack[u]));
                    }
                }
            }
            assert(pk1.no_duplicates());
            assert forall|t: int| 0 <= t < stack2.len() implies self.has_key(
                #[trigger] stack2[t],
            ) by {
                if t < stack.len() {
                    assert(stack2[t] == stack[t]);
                }
            }
            assert(!stack.contains(key@));
            assert(stack2.no_duplicates());
            assert forall|t: int| 0 <= t < rk.len() implies !stack2.contains(
                #[trigger] rk[t],
            ) by {
                if stack2.contains(rk[t]) {
                    let u = choose|u: int| 0 <= u < stack2.len() && stack2[u] == rk[t];
                    if u < stack.len() {
                        assert(stack.contains(rk[t]));
                    } else {
                        assert(rk[t] == key@);
                        assert(rk.contains(key@));
                        assert(pk0.contains(key@));
                    }
                }
            }
            assert forall|t: int| 0 <= t < stack2.len() - 1 implies #[trigger] is_dep_of(
                self,
                stack2[t],
                stack2[t + 1],
            ) by {
                if t < stack.len() - 1 {
                    assert(is_dep_of(self, stack[t], stack[t + 1]));
                    assert(stack2[t] == stack[t]);
                    assert(stack2[t + 1] == stack[t + 1]);
                } else {
                    assert(stack2[t] == stack.last());
                    assert(stack2[t + 1] == key@);
                }
            }
            lemma_distinct_keys_bound(self, pk1);
            lemma_distinct_keys_bound(self, stack2);
            assert(pk1[pk0.len() as int] == key@);
            assert(pk1.contains(key@));
            assert(dfs_inv(self, result@, processed@, stack2));
        }
        let node = self.get(key).unwrap();
        let nd = node.dependencies.len();
        let ghost p_marked = processed@;
        let mut j: usize = 0;
        while j < nd
            invariant
                self.wf(),
                self.has_key(key@),
                self.spec_get(key@) == Some(*node),
                nd == node.dependencies@.len(),
                stack2 == stack.push(key@),
                stack2.len() <= self.nodes@.len(),
                dfs_inv(self, result@, processed@, stack2),
                strs_view(processed@).contains(key@),
                forall|jj: int|
                    0 <= jj < j ==> (self.has_key((#[trigger] node.dependencies@[jj])@)
                        ==> strs_view(processed@).contains(node.dependencies@[jj]@)),
                r_entry.len() <= result@.len(),
                forall|t: int| 0 <= t < r_entry.len() ==> result@[t] == r_entry[t],
                forall|k: Seq<char>|
                    strs_view(p_marked).contains(k) ==> strs_view(processed@).contains(k),
                p_marked.len() <= processed@.len(),
                p_marked.len() == p_entry.len() + 1,
            decreases nd - j,
        {
            let dep = &node.dependencies[j];
            if self.contains_key(dep.as_str()) {
                proof {
                    assert(stack2.last() == key@);
                    assert(self.spec_get(key@) matches Some(n) && n.dependencies@[j as int]@
                        == dep@);
                    assert(is_dep_of(self, key@, dep@));
                    assert(strs_view(processed@).len() == processed@.len());
                    assert(processed@.len() <= self.nodes@.len());
                    assert(processed@.len() >= p_entry.len() + 1);
                }
                self.dfs_visit(dep.as_str(), result, processed, Ghost(stack2));
            }
            j = j + 1;
        }
        let ghost r_pre = result@;
        result.push(String::from_str(key));
        proof {
            let rk = strs_view(r_pre);
            let rk1 = strs_view(result@);
            let pk = strs_view(processed@);
            assert(rk1 =~= rk.push(key@));
            assert(stack2.contains(key@));
            assert(!rk.contains(key@));
            assert(rk1.no_duplicates());
            assert forall|t: int| 0 <= t < rk1.len() implies self.has_key(#[trigger] rk1[t]) by {
                if t < rk.len() {
                    assert(rk1[t] == rk[t]);
                }
            }
            assert forall|t: int| 0 <= t < rk1.len() implies !stack.contains(
                #[trigger] rk1[t],
            ) by {
                if t < rk.len() {
                    assert(rk1[t] == rk[t]);
                    if stack.contains(rk[t]) {
                        let u = choose|u: int| 0 <= u < stack.len() && stack[u] == rk[t];
                        assert(stack2[u] == rk[t]);
                        assert(stack2.contains(rk[t]));
                    }
                } else {
                    if stack.contains(key@) {
                        let u = choose|u: int| 0 <= u < stack.len() && stack[u] == key@;
                        assert(stack2[u] == key@);
                        assert(stack2.no_duplicates());
                        assert(stack2[stack.len() as int] == key@);
                    }
                }
            }
            assert forall|k: Seq<char>| #[trigger] pk.contains(k) implies rk1.contains(k)
                || stack.contains(k) by {
                if rk.contains(k) {
                    let u = choose|u: int| 0 <= u < rk.len() && rk[u] == k;
                    assert(rk1[u] == k);
                } else {
                    assert(stack2.contains(k));
                    let u = choose|u: int| 0 <= u < stack2.len() && stack2[u] == k;
                    if u < stack.len() {
                        assert(stack.contains(k));
                    } else {
                        assert(k == key@);
                        assert(rk1[rk.len() as int] == key@);
                    }
                }
            }
            assert forall|k: Seq<char>| #[trigger] rk1.contains(k) implies pk.contains(k) by {
                let u = choose|u: int| 0 <= u < rk1.len() && rk1[u] == k;
                if u < rk.len() {
                    assert(rk.contains(k));
                } else {
                    assert(k == key@);
                }
            }
            assert forall|k: Seq<char>| #[trigger] stack.contains(k) implies pk.contains(k) by {
                let u = choose|u: int| 0 <= u < stack.len() && stack[u] == k;
                assert(stack2[u] == k);
                assert(stack2.contains(k));
            }
            assert forall|t: int| 0 <= t < stack.len() implies self.has_key(
                #[trigger] stack[t],
            ) by {
                assert(stack2[t] == stack[t]);
                assert(self.has_key(stack2[t]));
            }
            assert forall|t: int| 0 <= t < stack.len() - 1 implies #[trigger] is_dep_of(
                self,
                stack[t],
                stack[t + 1],
            ) by {
                assert(is_dep_of(self, stack2[t], stack2[t + 1]));
                assert(stack2[t] == stack[t]);
                assert(stack2[t + 1] == stack[t + 1]);
            }
            assert forall|rank: Map<Seq<char>, nat>| #[trigger] self.respects_rank(
                rank,
            ) implies order_sound(self, rk1) by {
                assert(order_sound(self, rk));
                assert forall|oi: int| 0 <= oi < rk1.len() implies #[trigger] deps_emitted(
                    self,
                    rk1,
                    oi,
                ) by {
                    if oi < rk.len() {
                        assert(deps_emitted(self, rk, oi));
                        assert(rk1[oi] == rk[oi]);
                        match self.spec_get(rk1[oi]) {
                            Some(n) => {
                                assert forall|jd: int|
                                    0 <= jd < n.dependencies@.len() && self.has_key(
                                        (#[trigger] n.dependencies@[jd])@,
                                    ) implies emitted_before(
                                    rk1,
                                    oi,
                                    n.dependencies@[jd]@,
                                ) by {
                                    assert(emitted_before(rk, oi, n.dependencies@[jd]@));
                                    let w = choose|w: int|
                                        0 <= w < oi && rk[w] == n.dependencies@[jd]@;
                                    assert(rk1[w] == n.dependencies@[jd]@);
                                }
                            },
                            None => {},
                        }
                    } else {
                        assert(rk1[oi] == key@);
                        assert(self.spec_get(key@) == Some(*node));
                        let n = *node;
                        assert forall|jd: int|
                            0 <= jd < n.dependencies@.len() && self.has_key(
                                (#[trigger] n.dependencies@[jd])@,
                            ) implies emitted_before(rk1, oi, n.dependencies@[jd]@) by {
                            let d = n.dependencies@[jd]@;
                            assert(strs_view(processed@).contains(d));
                            assert(rk.contains(d) || stack2.contains(d));
                            if stack2.contains(d) {
                                let u = choose|u: int|
                                    0 <= u < stack2.len() && stack2[u] == d;
                                lemma_node_index(self.nodes@, key@);
                                let i = node_index(self.nodes@, key@)->0;
                                assert(self.nodes@[i] == n);
                                assert(0 <= jd < self.nodes@[i].dependencies@.len());
                                assert(self.nodes@[i].dependencies@[jd]@ == d);
                                assert(self.has_key(self.nodes@[i].dependencies@[jd]@));
                                assert(rank[d] < rank[self.nodes@[i].package@]);
                                assert(self.nodes@[i].package@ == key@);
                                if u < stack2.len() - 1 {
                                    lemma_chain_rank_desc(
                                        self,
                                        stack2,
                                        rank,
                                        u,
                                        stack2.len() - 1,
                                    );
                                    assert(stack2[stack2.len() - 1] == key@);
                                    assert(rank[key@] < rank[d]);
                                } else {
                                    assert(d == key@);
                                }
                                assert(false);
                            }
                            let w = choose|w: int| 0 <= w < rk.len() && rk[w] == d;
                            assert(rk1[w] == d);
                        }
                    }
                }
            }
            assert(dfs_inv(self, result@, processed@, stack));
        }
    }

    /// The installation order: a depth-first post-order over the nodes in
    /// insertion order, each node once, tolerant of cycles. Every key of
    /// the graph appears exactly once; under any acyclicity witness every
    /// in-graph dependency precedes its dependents.
    pub fn topological_sort(&self) -> (r: Vec<String>)
        requires
            self.wf(),
        ensures
            strs_view(r@).no_duplicates(),
            forall|t: int| 0 <= t < r@.len() ==> self.has_key(#[trigger] strs_view(r@)[t]),
            forall|i: int|
                0 <= i < self.nodes@.len() ==> strs_view(r@).contains(
                    (#[trigger] self.nodes@[i]).package@,
                ),
            forall|rank: Map<Seq<char>, nat>|
                #[trigger] self.respects_rank(rank) ==> order_sound(self, strs_view(r@)),
    {
        let mut result: Vec<String> = Vec::new();
        let mut processed: Vec<String> = Vec::new();
        let n = self.nodes.len();
        let mut idx: usize = 0;
        proof {
            assert(strs_view(result@) =~= Seq::<Seq<char>>::empty());
            assert(strs_view(processed@) =~= Seq::<Seq<char>>::empty());
            assert(dfs_inv(self, result@, processed@, Seq::<Seq<char>>::empty()));
        }
        while idx < n
            invariant
                self.wf(),
                n == self.nodes@.len(),
                0 <= idx <= n,
                dfs_inv(self, result@, processed@, Seq::<Seq<char>>::empty()),
                forall|i: int|
                    0 <= i < idx ==> strs_view(processed@).contains(
                        (#[trigger] self.nodes@[i]).package@,
                    ),
            decreases n - idx,
        {
            let key = &self.nodes[idx].package;
            proof {
                lemma_node_index_at(self.nodes@, self.nodes@[idx as int].package@, idx as int);
            }
            let ghost p_before = processed@;
            self.dfs_visit(
                key.as_str(),
                &mut result,
                &mut processed,
                Ghost(Seq::<Seq<char>>::empty()),
            );
            proof {
                assert forall|i: int| 0 <= i < idx + 1 implies strs_view(processed@).contains(
                    (#[trigger] self.nodes@[i]).package@,
                ) by {
                    if i < idx {
                        assert(strs_view(p_before).contains(self.nodes@[i].package@));
                    }
                }
            }
            idx = idx + 1;
        }
        proof {
            let rk = strs_view(result@);
            let pk = strs_view(processed@);
            assert forall|i: int| 0 <= i < self.nodes@.len() implies rk.contains(
                (#[trigger] self.nodes@[i]).package@,
            ) by {
                assert(pk.contains(self.nodes@[i].package@));
                assert(rk.contains(self.nodes@[i].package@) || Seq::<Seq<char>>::empty().contains(
                    self.nodes@[i].package@,
                ));
            }
        }
        result
    }
}

/// A set of catalogues keyed by package name: what the registry has
/// reported so far, one listing per name.
pub struct CatalogueSet {
    pub entries: Vec<(String, Vec<(String, PackageVersion)>)>,
}

/// Index of the first catalogue under `name`, if any.
pub open spec fn cat_index(
    s: Seq<(String, Vec<(String, PackageVersion)>)>,
    name: Seq<char>,
) -> Option<int>
    decreases s.len(),
{
    if s.len() == 0 {
        None
    } else if s.first().0@ == name {
        Some(0)
    } else {
        match cat_index(s.drop_first(), name) {
            None => None,
            Some(i) => Some(i + 1),
        }
    }
}

/// What `cat_index` returns: the first catalogue under the name, or a
/// guarantee that none carries it.
pub proof fn lemma_cat_index(s: Seq<(String, Vec<(String, PackageVersion)>)>, name: Seq<char>)
    ensures
        match cat_index(s, name) {
            Some(i) => 0 <= i < s.len() && s[i].0@ == name && forall|k: int|
                0 <= k < i ==> (#[trigger] s[k]).0@ != name,
            None => forall|k: int| 0 <= k < s.len() ==> (#[trigger] s[k]).0@ != name,
        },
    decreases s.len(),
{
    if s.len() > 0 && s.first().0@ != name {
        lemma_cat_index(s.drop_first(), name);
        assert(forall|k: int| 1 <= k < s.len() ==> #[trigger] s[k] == s.drop_first()[k - 1]);
    }
}

/// A scan that stopped at the first catalogue under the name computed
/// `cat_index`.
pub proof fn lemma_cat_index_at(
    s: Seq<(String, Vec<(String, PackageVersion)>)>,
    name: Seq<char>,
    i: int,
)
    requires
        0 <= i < s.len(),
        s[i].0@ == name,
        forall|k: int| 0 <= k < i ==> (#[trigger] s[k]).0@ != name,
    ensures
        cat_index(s, name) == Some(i),
{
    lemma_cat_index(s, name);
    match cat_index(s, name) {
        Some(j) => {
            if j < i {
                assert(s[j].0@ == name);
            } else if i < j {
                assert(s[i].0@ != name);
            }
        },
        None => {
            assert(s[i].0@ != name);
        },
    }
}

impl CatalogueSet {
    /// Whether a catalogue stands under `name`.
    pub open spec fn spec_contains(&self, name: Seq<char>) -> bool {
        cat_index(self.entries@, name) is Some
    }

    /// An empty set.
    pub fn new() -> (r: CatalogueSet)
        ensures
            r.entries@.len() == 0,
    {
        CatalogueSet { entries: Vec::new() }
    }

    /// Whether a catalogue stands under `name`, as `spec_contains` names
    /// it.
    pub fn contains(&self, name: &str) -> (r: bool)
        ensures
            r == self.spec_contains(name@),
    {
        match self.get(name) {
            Some(_) => true,
            None => false,
        }
    }

    /// A shared view of the catalogue under `name`, if any.
    pub fn get(&self, name: &str) -> (r: Option<&Vec<(String, PackageVersion)>>)
        ensures
            match r {
                Some(v) => {
                    let idx = cat_index(self.entries@, name@);
                    idx is Some && *v == self.entries@[idx->0].1 && self.entries@[idx->0].0@
                        == name@
                },
                None => cat_index(self.entries@, name@) is None,
            },
    {
        let n = self.entries.len();
        let mut i: usize = 0;
        while i < n
            invariant
                0 <= i <= n,
                n == self.entries@.len(),
                forall|k: int| 0 <= k < i ==> (#[trigger] self.entries@[k]).0@ != name@,
            decreases n - i,
        {
            if str_eq(self.entries[i].0.as_str(), name) {
                proof {
                    lemma_cat_index_at(self.entries@, name@, i as int);
                }
                return Some(&self.entries[i].1);
            }
            i = i + 1;
        }
        proof {
            lemma_cat_index(self.entries@, name@);
        }
        None
    }

    /// Records a catalogue under `name`, replacing any previous one.
    pub fn insert(&mut self, name: String, versions: Vec<(String, PackageVersion)>)
        ensures
            match cat_index(old(self).entries@, name@) {
                Some(i) => final(self).entries@ == old(self).entries@.update(i, (name, versions)),
                None => final(self).entries@ == old(self).entries@.push((name, versions)),
            },
    {
        proof {
            lemma_cat_index(self.entries@, name@);
        }
        let n = self.entries.len();
        let mut i: usize = 0;
        while i < n
            invariant
                0 <= i <= n,
                n == self.entries@.len(),
                old(self).entries@ == self.entries@,
                forall|k: int| 0 <= k < i ==> (#[trigger] self.entries@[k]).0@ != name@,
            decreases n - i,
        {
            if str_eq(self.entries[i].0.as_str(), name.as_str()) {
                proof {
                    lemma_cat_index_at(self.entries@, name@, i as int);
                }
                self.entries.set(i, (name, versions));
                return ;
            }
            i = i + 1;
        }
        self.entries.push((name, versions));
    }
}

/// Dependency pairs rendered as `name@range` keys.
pub open spec fn render_pairs(s: Seq<(Seq<char>, Seq<char>)>) -> Seq<Seq<char>> {
    s.map_values(|p: (Seq<char>, Seq<char>)| p.0 + seq!['@'] + p.1)
}

/// A node's dependency keys: plain, then optional, then peer dependencies,
/// each rendered `name@range`.
pub open spec fn spec_dep_keys(m: ManifestV) -> Seq<Seq<char>> {
    render_pairs(m.deps) + render_pairs(m.opt_deps) + render_pairs(m.peer_deps)
}

/// `left@right`, the join both keys and dependency renderings use.
pub fn join_at(left: &str, right: &str) -> (r: String)
    ensures
        r@ == left@ + seq!['@'] + right@,
{
    let mut out = String::from_str(left);
    push_char(&mut out, '@');
    out.append(right);
    proof {
        assert(out@ =~= left@ + seq!['@'] + right@);
    }
    out
}

fn append_rendered(out: &mut Vec<String>, deps: &Option<Vec<(String, String)>>)
    ensures
        strs_view(final(out)@) == strs_view(old(out)@) + render_pairs(
            crate::registry::deps_view(*deps),
        ),
{
    let d = match deps {
        Some(d) => d,
        None => {
            proof {
                assert(strs_view(out@) =~= strs_view(out@) + render_pairs(
                    crate::registry::deps_view(*deps),
                ));
            }
            return ;
        },
    };
    let ghost base = out@;
    let ghost rp = render_pairs(crate::registry::pairs_view(d@));
    let n = d.len();
    let mut i: usize = 0;
    while i < n
        invariant
            0 <= i <= n,
            n == d@.len(),
            rp == render_pairs(crate::registry::pairs_view(d@)),
            rp.len() == n,
            strs_view(out@) =~= strs_view(base) + rp.take(i as int),
        decreases n - i,
    {
        let pair = &d[i];
        let key = join_at(pair.0.as_str(), pair.1.as_str());
        let ghost pre = out@;
        out.push(key);
        proof {
            assert(forall|k: int| 0 <= k < pre.len() ==> #[trigger] out@[k] == pre[k]);
            assert(strs_view(pre).len() == pre.len());
            assert(pre.len() == base.len() + i);
            assert(strs_view(out@).len() == pre.len() + 1);
            assert(rp[i as int] == (crate::registry::pairs_view(d@)[i as int].0 + seq!['@']
                + crate::registry::pairs_view(d@)[i as int].1));
            assert(crate::registry::pairs_view(d@)[i as int] == (d@[i as int].0@, d@[i as int].1@));
            assert(strs_view(out@)[pre.len() as int] == rp[i as int]);
            assert forall|k: int| 0 <= k < strs_view(out@).len() implies #[trigger] strs_view(
                out@,
            )[k] == (strs_view(base) + rp.take(i as int + 1))[k] by {
                if k < pre.len() {
                    assert(strs_view(pre)[k] == (strs_view(base) + rp.take(i as int))[k]);
                    assert(strs_view(out@)[k] == strs_view(pre)[k]);
                    if k >= base.len() {
                        assert(rp.take(i as int)[k - base.len()] == rp[k - base.len()]);
                        assert(rp.take(i as int + 1)[k - base.len()] == rp[k - base.len()]);
                    }
                } else {
                    assert(k == base.len() + i);
                    assert(strs_view(out@)[k] == rp[i as int]);
                    assert((strs_view(base) + rp.take(i as int + 1))[k] == rp.take(i as int + 1)[
                        i as int
                    ]);
                    assert(rp.take(i as int + 1)[i as int] == rp[i as int]);
                }
            }
            assert(strs_view(out@) =~= strs_view(base) + rp.take(i as int + 1));
        }
        i = i + 1;
    }
    proof {
        assert(rp.take(n as int) =~= rp);
    }
}

/// A manifest's dependency keys, as `spec_dep_keys` names them.
pub fn dep_keys_of(info: &PackageVersion) -> (r: Vec<String>)
    ensures
        strs_view(r@) == spec_dep_keys(info@),
{
    let mut out: Vec<String> = Vec::new();
    proof {
        assert(strs_view(out@) =~= Seq::<Seq<char>>::empty());
    }
    append_rendered(&mut out, &info.dependencies);
    append_rendered(&mut out, &info.optional_dependencies);
    append_rendered(&mut out, &info.peer_dependencies);
    proof {
        assert(strs_view(out@) =~= spec_dep_keys(info@));
    }
    out
}

/// A manifest's concrete key `name@version`, as `spec_key` names it.
pub fn key_of_manifest(info: &PackageVersion) -> (r: String)
    ensures
        r@ == spec_key(info@),
{
    join_at(info.name.as_str(), info.version.as_str())
}

/// Index of the first pair under `key`, if any.
pub open spec fn pair_index(s: Seq<(String, String)>, key: Seq<char>) -> Option<int>
    decreases s.len(),
{
    if s.len() == 0 {
        None
    } else if s.first().0@ == key {
        Some(0)
    } else {
        match pair_index(s.drop_first(), key) {
            None => None,
            Some(i) => Some(i + 1),
        }
    }
}

/// What `pair_index` returns: the first pair under the key, or a guarantee
/// that none carries it.
pub proof fn lemma_pair_index(s: Seq<(String, String)>, key: Seq<char>)
    ensures
        match pair_index(s, key) {
            Some(i) => 0 <= i < s.len() && s[i].0@ == key && forall|k: int|
                0 <= k < i ==> (#[trigger] s[k]).0@ != key,
            None => forall|k: int| 0 <= k < s.len() ==> (#[trigger] s[k]).0@ != key,
        },
    decreases s.len(),
{
    if s.len() > 0 && s.first().0@ != key {
        lemma_pair_index(s.drop_first(), key);
        assert(forall|k: int| 1 <= k < s.len() ==> #[trigger] s[k] == s.drop_first()[k - 1]);
    }
}

/// A scan that stopped at the first pair under the key computed
/// `pair_index`.
pub proof fn lemma_pair_index_at(s: Seq<(String, String)>, key: Seq<char>, i: int)
    requires
        0 <= i < s.len(),
        s[i].0@ == key,
        forall|k: int| 0 <= k < i ==> (#[trigger] s[k]).0@ != key,
    ensures
        pair_index(s, key) == Some(i),
{
    lemma_pair_index(s, key);
    match pair_index(s, key) {
        Some(j) => {
            if j < i {
                assert(s[j].0@ == key);
            } else if i < j {
                assert(s[i].0@ != key);
            }
        },
        None => {
            assert(s[i].0@ != key);
        },
    }
}

fn pair_get<'a>(v: &'a Vec<(String, String)>, key: &str) -> (r: Option<&'a String>)
    ensures
        match r {
            Some(val) => {
                let idx = pair_index(v@, key@);
                idx is Some && *val == v@[idx->0].1
            },
            None => pair_index(v@, key@) is None,
        },
{
    let n = v.len();
    let mut i: usize = 0;
    while i < n
        invariant
            0 <= i <= n,
            n == v@.len(),
            forall|k: int| 0 <= k < i ==> (#[trigger] v@[k]).0@ != key@,
        decreases n - i,
    {
        if str_eq(v[i].0.as_str(), key) {
            proof {
                lemma_pair_index_at(v@, key@, i as int);
            }
            return Some(&v[i].1);
        }
        i = i + 1;
    }
    proof {
        lemma_pair_index(v@, key@);
    }
    None
}

fn pair_put(v: &mut Vec<(String, String)>, key: String, value: String)
    ensures
        match pair_index(old(v)@, key@) {
            Some(i) => final(v)@ == old(v)@.update(i, (key, value)),
            None => final(v)@ == old(v)@.push((key, value)),
        },
{
    proof {
        lemma_pair_index(v@, key@);
    }
    let n = v.len();
    let mut i: usize = 0;
    while i < n
        invariant
            0 <= i <= n,
            n == v@.len(),
            old(v)@ == v@,
            forall|k: int| 0 <= k < i ==> (#[trigger] v@[k]).0@ != key@,
        decreases n - i,
    {
        if str_eq(v[i].0.as_str(), key.as_str()) {
            proof {
                lemma_pair_index_at(v@, key@, i as int);
            }
            v.set(i, (key, value));
            return ;
        }
        i = i + 1;
    }
    v.push((key, value));
}

/// The resolution-cache key of a request: its name, `@`, its range.
pub open spec fn req_key_of(p: RequestV) -> Seq<char> {
    p.name + seq!['@'] + req_range(p)
}

/// Listing index `mi` parses, satisfies `range`, and every listed version
/// that satisfies `range` is at most it.
pub open spec fn max_sat_at(
    entry: Seq<(String, PackageVersion)>,
    range: Seq<char>,
    mi: int,
) -> bool {
    &&& 0 <= mi < entry.len()
    &&& spec_parse_version(entry[mi].0@) is Some
    &&& spec_satisfies_composite(spec_parse_version(entry[mi].0@)->0, range)
    &&& forall|vj: int|
        0 <= vj < entry.len() && spec_parse_version((#[trigger] entry[vj]).0@) is Some
            && spec_satisfies_composite(spec_parse_version(entry[vj].0@)->0, range)
            ==> crate::semver::ver_le(
            spec_parse_version(entry[vj].0@)->0,
            spec_parse_version(entry[mi].0@)->0,
        )
}

/// The listing can answer `range`: a greatest satisfying version exists
/// and its canonical rendering is listed as a raw version string.
pub open spec fn answerable(entry: Seq<(String, PackageVersion)>, range: Seq<char>) -> bool {
    exists|mi: int, vi: int|
        #![trigger entry[mi], entry[vi]]
        max_sat_at(entry, range, mi) && 0 <= vi < entry.len() && entry[vi].0@
            == spec_format_version(spec_parse_version(entry[mi].0@)->0)
}

/// `n` answers `range` from the listing under `name`: its manifest is the
/// one listed under the greatest satisfying version's canonical
/// rendering, and its key joins `name` with that rendering.
pub open spec fn answers_request(
    entry: Seq<(String, PackageVersion)>,
    name: Seq<char>,
    range: Seq<char>,
    n: DAGNode,
) -> bool {
    exists|mi: int, vi: int|
        #![trigger entry[mi], entry[vi]]
        max_sat_at(entry, range, mi) && 0 <= vi < entry.len() && entry[vi].0@
            == spec_format_version(spec_parse_version(entry[mi].0@)->0) && n.package@ == name
            + seq!['@'] + entry[vi].0@ && n.info@ == entry[vi].1@
}

/// Two runs with the same key texts position any key alike.
pub proof fn lemma_pair_index_same_keys(
    a: Seq<(String, String)>,
    b: Seq<(String, String)>,
    key: Seq<char>,
)
    requires
        a.len() == b.len(),
        forall|j: int| 0 <= j < a.len() ==> (#[trigger] a[j]).0@ == b[j].0@,
    ensures
        pair_index(a, key) == pair_index(b, key),
    decreases a.len(),
{
    if a.len() > 0 {
        assert(b.first().0@ == a.first().0@);
        if a.first().0@ != key {
            assert forall|j: int| 0 <= j < a.len() - 1 implies (#[trigger] a.drop_first()[j]).0@
                == b.drop_first()[j].0@ by {
                assert(a.drop_first()[j] == a[j + 1]);
                assert(b.drop_first()[j] == b[j + 1]);
            }
            lemma_pair_index_same_keys(a.drop_first(), b.drop_first(), key);
        }
    }
}

/// Whether `n` restates a catalogue line: its manifest is listed under
/// some cached name, and its key joins that name with the listed raw
/// version.
pub open spec fn resolved_from(cats: &CatalogueSet, n: DAGNode) -> bool {
    exists|ci: int, vi: int|
        0 <= ci < cats.entries@.len() && 0 <= vi < cats.entries@[ci].1@.len() && n.info@ == (
        #[trigger] cats.entries@[ci].1@[vi]).1@ && n.package@ == cats.entries@[ci].0@ + seq!['@']
            + cats.entries@[ci].1@[vi].0@
}

/// Whether `m` restates a manifest listed in some cached catalogue.
pub open spec fn manifest_in(cats: &CatalogueSet, m: PackageVersion) -> bool {
    exists|ci: int, vi: int|
        0 <= ci < cats.entries@.len() && 0 <= vi < cats.entries@[ci].1@.len() && m@ == (
        #[trigger] cats.entries@[ci].1@[vi]).1@
}

/// The range a request asks for: its raw range, or `latest` when absent.
pub open spec fn req_range(p: RequestV) -> Seq<char> {
    match p.version {
        Some(v) => v,
        None => "latest"@,
    }
}

/// Every raw version string of the listing that parses is the canonical
/// rendering of its version.
pub open spec fn canonical_entry(entry: Seq<(String, PackageVersion)>) -> bool {
    forall|vi: int|
        0 <= vi < entry.len() ==> match spec_parse_version((#[trigger] entry[vi]).0@) {
            Some(w) => entry[vi].0@ == spec_format_version(w),
            None => true,
        }
}

/// No raw version string of the listing parses to a version satisfying
/// `range`.
pub open spec fn none_satisfies(entry: Seq<(String, PackageVersion)>, range: Seq<char>) -> bool {
    forall|vi: int|
        0 <= vi < entry.len() ==> match spec_parse_version((#[trigger] entry[vi]).0@) {
            Some(w) => !spec_satisfies_composite(w, range),
            None => true,
        }
}

fn find_version_index(cat: &Vec<(String, PackageVersion)>, wanted: &str) -> (r: Option<usize>)
    ensures
        match r {
            Some(i) => 0 <= i < cat@.len() && cat@[i as int].0@ == wanted@,
            None => forall|k: int| 0 <= k < cat@.len() ==> (#[trigger] cat@[k]).0@ != wanted@,
        },
{
    let n = cat.len();
    let mut i: usize = 0;
    while i < n
        invariant
            0 <= i <= n,
            n == cat@.len(),
            forall|k: int| 0 <= k < i ==> (#[trigger] cat@[k]).0@ != wanted@,
        decreases n - i,
    {
        if str_eq(cat[i].0.as_str(), wanted) {
            return Some(i);
        }
        i = i + 1;
    }
    None
}

/// Builds the dependency graph: resolves requests against cached
/// catalogues, remembering each request's outcome so that equal requests
/// resolve alike.
pub struct DAGBuilder {
    pub resolution_cache: Vec<(String, String)>,
}

impl DAGBuilder {
    /// A builder with an empty resolution cache.
    pub fn new() -> (r: DAGBuilder)
        ensures
            r.resolution_cache@.len() == 0,
    {
        DAGBuilder { resolution_cache: Vec::new() }
    }

    /// Resolves one request against the cached catalogues: picks the
    /// greatest satisfying version of the named package and returns its
    /// node, whose manifest and key restate the catalogue line and whose
    /// dependency keys render the manifest's maps. On a request not yet
    /// in the resolution cache, the node answers the request exactly; the
    /// cache then maps the request to the node's key, and it always maps
    /// requests it already held. `None` only when the name has no
    /// catalogue or the listing cannot answer the range, and then the
    /// cache is untouched.
    pub fn resolve_single(&mut self, package: &RequestPackage, catalogues: &CatalogueSet) -> (r:
        Option<DAGNode>)
        ensures
            r matches Some(n) ==> resolved_from(catalogues, n) && strs_view(n.dependencies@)
                == spec_dep_keys(n.info@),
            r matches Some(n) ==> ({
                let fi = pair_index(final(self).resolution_cache@, req_key_of(package@));
                fi is Some && final(self).resolution_cache@[fi->0].1@ == n.package@
            }),
            r matches Some(n) ==> (pair_index(
                old(self).resolution_cache@,
                req_key_of(package@),
            ) is None ==> (cat_index(catalogues.entries@, package@.name) matches Some(ci)
                && answers_request(
                catalogues.entries@[ci].1@,
                package@.name,
                req_range(package@),
                n,
            ))),
            r is None ==> final(self).resolution_cache@ == old(self).resolution_cache@,
            r is None ==> match cat_index(catalogues.entries@, package@.name) {
                Some(ci) => !answerable(catalogues.entries@[ci].1@, req_range(package@)) && (
                canonical_entry(catalogues.entries@[ci].1@) ==> none_satisfies(
                    catalogues.entries@[ci].1@,
                    req_range(package@),
                )),
                None => true,
            },
            forall|k: Seq<char>|
                (#[trigger] pair_index(old(self).resolution_cache@, k)) is Some ==> pair_index(
                    final(self).resolution_cache@,
                    k,
                ) is Some,
            final(self).resolution_cache@.len() == old(self).resolution_cache@.len() || (final(self).resolution_cache@.len() == old(self).resolution_cache@.len() + 1 && final(self).resolution_cache@[old(self).resolution_cache@.len() as int].0@ == req_key_of(
                package@,
            )),
            forall|e: int|
                0 <= e < old(self).resolution_cache@.len() ==> (#[trigger] final(self).resolution_cache@[e]).0@ == old(self).resolution_cache@[e].0@ && (final(self).resolution_cache@[e].1@ == old(self).resolution_cache@[e].1@ || final(self).resolution_cache@[e].0@ == req_key_of(package@)),
    {
        let version_req: &str = match &package.version {
            Some(v) => v.as_str(),
            None => "latest",
        };
        let mut cache_key = package.name.clone();
        push_char(&mut cache_key, '@');
        cache_key.append(version_req);
        let ghost ck = req_key_of(package@);
        let ghost cache0 = self.resolution_cache@;
        proof {
            assert(cache_key@ =~= ck);
        }
        let cached: Option<String> = match pair_get(&self.resolution_cache, cache_key.as_str()) {
            Some(v) => Some(v.clone()),
            None => None,
        };
        if let Some(final_key) = cached {
            let fk = final_key.as_str();
            let fk_len = fk.unicode_len();
            if let Some(pos) = rfind_char_in(fk, '@') {
                proof {
                    lemma_rfind_char(fk@, '@');
                }
                let pkg_name = fk.substring_char(0, pos);
                let pkg_version = fk.substring_char(pos + 1, fk_len);
                if let Some(versions) = catalogues.get(pkg_name) {
                    if let Some(vi) = find_version_index(versions, pkg_version) {
                        let manifest = versions[vi].1.clone();
                        let deps = dep_keys_of(&manifest);
                        proof {
                            lemma_cat_index(catalogues.entries@, pkg_name@);
                            let ci = cat_index(catalogues.entries@, pkg_name@)->0;
                            assert(pkg_name@ =~= fk@.take(pos as int));
                            assert(pkg_version@ =~= fk@.skip(pos as int + 1));
                            assert(fk@ =~= fk@.take(pos as int) + seq!['@'] + fk@.skip(
                                pos as int + 1,
                            ));
                            assert(versions@ == catalogues.entries@[ci].1@);
                            assert(catalogues.entries@[ci].1@[vi as int].1@ == manifest@);
                            assert(final_key@ =~= catalogues.entries@[ci].0@ + seq!['@']
                                + catalogues.entries@[ci].1@[vi as int].0@);
                            let fi = pair_index(self.resolution_cache@, ck);
                            assert(fi is Some && self.resolution_cache@[fi->0].1@ == final_key@);
                        }
                        return Some(
                            DAGNode { package: final_key, dependencies: deps, info: manifest },
                        );
                    }
                }
            }
        }
        let name = package.name.as_str();
        let cat = match catalogues.get(name) {
            Some(v) => v,
            None => {
                return None;
            },
        };
        let ghost ci = cat_index(catalogues.entries@, name@)->0;
        let mut available: Vec<&str> = Vec::new();
        let cn = cat.len();
        let mut ai: usize = 0;
        while ai < cn
            invariant
                0 <= ai <= cn,
                cn == cat@.len(),
                available@.len() == ai,
                forall|k: int| 0 <= k < ai ==> (#[trigger] available@[k])@ == cat@[k].0@,
            decreases cn - ai,
        {
            available.push(cat[ai].0.as_str());
            ai = ai + 1;
        }
        let selected = match select_version(version_req, available) {
            Some(s) => s,
            None => {
                proof {
                    assert forall|vi: int| 0 <= vi < cat@.len() implies match spec_parse_version(
                        (#[trigger] cat@[vi]).0@,
                    ) {
                        Some(w) => !spec_satisfies_composite(w, req_range(package@)),
                        None => true,
                    } by {
                        assert(!sat_at(available@, version_req@, vi));
                        assert(available@[vi]@ == cat@[vi].0@);
                    }
                    if answerable(cat@, req_range(package@)) {
                        let (mi, vx) = choose|mi: int, vx: int|
                            #![trigger cat@[mi], cat@[vx]]
                            max_sat_at(cat@, req_range(package@), mi) && 0 <= vx < cat@.len()
                                && cat@[vx].0@ == spec_format_version(
                                spec_parse_version(cat@[mi].0@)->0,
                            );
                        assert(spec_parse_version(cat@[mi].0@) is Some);
                        assert(false);
                    }
                }
                return None;
            },
        };
        let vi = match find_version_index(cat, selected.as_str()) {
            Some(v) => v,
            None => {
                proof {
                    let i = choose|i: int|
                        0 <= i < available@.len() && #[trigger] sat_at(
                            available@,
                            version_req@,
                            i,
                        ) && selected@ == spec_format_version(cand_at(available@, i)->0) && forall|
                            j: int,
                        |
                            0 <= j < available@.len() && #[trigger] sat_at(
                                available@,
                                version_req@,
                                j,
                            ) ==> crate::semver::ver_le(
                                cand_at(available@, j)->0,
                                cand_at(available@, i)->0,
                            );
                    assert(available@[i]@ == cat@[i].0@);
                    if canonical_entry(cat@) {
                        assert(spec_parse_version(cat@[i].0@) is Some);
                        assert(cat@[i].0@ == spec_format_version(
                            spec_parse_version(cat@[i].0@)->0,
                        ));
                        assert(cat@[i].0@ == selected@);
                    }
                    if answerable(cat@, req_range(package@)) {
                        let (mi, vx) = choose|mi: int, vx: int|
                            #![trigger cat@[mi], cat@[vx]]
                            max_sat_at(cat@, req_range(package@), mi) && 0 <= vx < cat@.len()
                                && cat@[vx].0@ == spec_format_version(
                                spec_parse_version(cat@[mi].0@)->0,
                            );
                        let vm = spec_parse_version(cat@[mi].0@)->0;
                        let vc = cand_at(available@, i)->0;
                        assert(available@[mi]@ == cat@[mi].0@);
                        assert(sat_at(available@, version_req@, mi));
                        assert(crate::semver::ver_le(vm, vc));
                        assert(sat_at(available@, version_req@, i));
                        assert(spec_parse_version(cat@[i].0@) is Some);
                        assert(spec_satisfies_composite(vc, req_range(package@)));
                        assert(crate::semver::ver_le(vc, vm));
                        crate::semver::lemma_ver_lt_total(vm, vc);
                        assert(crate::semver::ver_eq(vm, vc));
                        assert(vm == vc);
                        assert(cat@[vx].0@ == spec_format_version(vc));
                        assert(cat@[vx].0@ == selected@);
                        assert(false);
                    }
                }
                return None;
            },
        };
        let manifest = cat[vi].1.clone();
        let final_key = join_at(name, selected.as_str());
        pair_put(&mut self.resolution_cache, cache_key, final_key.clone());
        let deps = dep_keys_of(&manifest);
        proof {
            lemma_cat_index(catalogues.entries@, name@);
            assert(catalogues.entries@[ci].0@ == name@);
            assert(cat@ == catalogues.entries@[ci].1@);
            assert(catalogues.entries@[ci].1@[vi as int].1@ == manifest@);
            assert(final_key@ == catalogues.entries@[ci].0@ + seq!['@']
                + catalogues.entries@[ci].1@[vi as int].0@);
            // The cache now maps the request key to the node's key, and
            // every other entry is untouched.
            lemma_pair_index(cache0, ck);
            let now = self.resolution_cache@;
            match pair_index(cache0, ck) {
                Some(pi) => {
                    assert(now[pi].0@ == ck);
                    assert(forall|e: int| 0 <= e < now.len() && e != pi ==> #[trigger] now[e]
                        == cache0[e]);
                    assert forall|e: int| 0 <= e < pi implies (#[trigger] now[e]).0@ != ck by {
                        assert(cache0[e].0@ != ck);
                    }
                    lemma_pair_index_at(now, ck, pi);
                    assert(now[pi].1@ == final_key@);
                    assert forall|k: Seq<char>|
                        (#[trigger] pair_index(cache0, k)) is Some implies pair_index(
                        now,
                        k,
                    ) is Some by {
                        assert forall|j: int| 0 <= j < cache0.len() implies (
                        #[trigger] cache0[j]).0@ == now[j].0@ by {
                            if j == pi {
                                assert(cache0[j].0@ == ck);
                            }
                        }
                        lemma_pair_index_same_keys(cache0, now, k);
                    }
                },
                None => {
                    assert(now.len() == cache0.len() + 1);
                    assert(forall|e: int| 0 <= e < cache0.len() ==> #[trigger] now[e]
                        == cache0[e]);
                    assert(now[cache0.len() as int].0@ == ck);
                    assert(now[cache0.len() as int].1@ == final_key@);
                    assert forall|e: int| 0 <= e < cache0.len() implies (#[trigger] now[e]).0@
                        != ck by {
                        assert(cache0[e].0@ != ck);
                    }
                    lemma_pair_index_at(now, ck, cache0.len() as int);
                    assert forall|k: Seq<char>|
                        (#[trigger] pair_index(cache0, k)) is Some implies pair_index(
                        now,
                        k,
                    ) is Some by {
                        lemma_pair_index(cache0, k);
                        let j = pair_index(cache0, k)->0;
                        assert forall|e: int| 0 <= e < j implies (#[trigger] now[e]).0@ != k by {
                            assert(cache0[e].0@ != k);
                        }
                        lemma_pair_index_at(now, k, j);
                    }
                    // A fresh request is answered exactly.
                    let i = choose|i: int|
                        0 <= i < available@.len() && #[trigger] sat_at(
                            available@,
                            version_req@,
                            i,
                        ) && selected@ == spec_format_version(cand_at(available@, i)->0) && forall|
                            j: int,
                        |
                            0 <= j < available@.len() && #[trigger] sat_at(
                                available@,
                                version_req@,
                                j,
                            ) ==> crate::semver::ver_le(
                                cand_at(available@, j)->0,
                                cand_at(available@, i)->0,
                            );
                    assert(available@[i]@ == cat@[i].0@);
                    assert(spec_parse_version(cat@[i].0@) is Some);
                    assert(spec_satisfies_composite(
                        spec_parse_version(cat@[i].0@)->0,
                        req_range(package@),
                    ));
                    assert forall|vj: int|
                        0 <= vj < cat@.len() && spec_parse_version(
                            (#[trigger] cat@[vj]).0@,
                        ) is Some && spec_satisfies_composite(
                            spec_parse_version(cat@[vj].0@)->0,
                            req_range(package@),
                        ) implies crate::semver::ver_le(
                        spec_parse_version(cat@[vj].0@)->0,
                        spec_parse_version(cat@[i].0@)->0,
                    ) by {
                        assert(available@[vj]@ == cat@[vj].0@);
                        assert(sat_at(available@, version_req@, vj));
                    }
                    assert(max_sat_at(cat@, req_range(package@), i));
                    assert(cat@[vi as int].0@ == selected@);
                    assert(cat@[vi as int].0@ == spec_format_version(
                        spec_parse_version(cat@[i].0@)->0,
                    ));
                },
            }
        }
        let node = DAGNode { package: final_key, dependencies: deps, info: manifest };
        proof {
            if pair_index(cache0, ck) is None {
                let i = choose|i: int|
                    0 <= i < available@.len() && #[trigger] sat_at(available@, version_req@, i)
                        && selected@ == spec_format_version(cand_at(available@, i)->0) && forall|
                        j: int,
                    |
                        0 <= j < available@.len() && #[trigger] sat_at(
                            available@,
                            version_req@,
                            j,
                        ) ==> crate::semver::ver_le(
                            cand_at(available@, j)->0,
                            cand_at(available@, i)->0,
                        );
                assert(max_sat_at(cat@, req_range(package@), i));
                assert(node.package@ == package@.name + seq!['@'] + cat@[vi as int].0@);
                assert(node.info@ == cat@[vi as int].1@);
                assert(answers_request(cat@, package@.name, req_range(package@), node));
            }
        }
        Some(node)
    }
}

/// The name is catalogued and its listing can answer the request's
/// range.
pub open spec fn root_answerable(cats: &CatalogueSet, p: RequestV) -> bool {
    cat_index(cats.entries@, p.name) matches Some(ci) && answerable(
        cats.entries@[ci].1@,
        req_range(p),
    )
}

/// The builder's answer to `p` is on record: the resolution cache maps
/// `p`'s request key to the key of a catalogue-listed node, and a
/// manifest carrying that node's concrete key stands among `ms`.
pub open spec fn root_covered(
    cache: Seq<(String, String)>,
    cats: &CatalogueSet,
    ms: Seq<PackageVersion>,
    p: RequestV,
) -> bool {
    exists|n: DAGNode|
        #![trigger resolved_from(cats, n)]
        resolved_from(cats, n) && ({
            let fi = pair_index(cache, req_key_of(p));
            fi is Some && cache[fi->0].1@ == n.package@
        }) && (exists|ri: int|
            0 <= ri < ms.len() && spec_key((#[trigger] ms[ri])@) == spec_key(n.info@))
}

/// The builder's answer to `p` is on record in a graph: the resolution
/// cache maps `p`'s request key to the key of a catalogue-listed node,
/// and the graph holds a node under that node's concrete key.
pub open spec fn root_covered_in_graph(
    cache: Seq<(String, String)>,
    cats: &CatalogueSet,
    g: &DependencyGraph,
    p: RequestV,
) -> bool {
    exists|n: DAGNode|
        #![trigger resolved_from(cats, n)]
        resolved_from(cats, n) && ({
            let fi = pair_index(cache, req_key_of(p));
            fi is Some && cache[fi->0].1@ == n.package@
        }) && g.has_key(spec_key(n.info@))
}

/// A covered request stays covered across one resolution: its cache
/// entry either kept its value, or now names the resolving call's node,
/// whose manifest key the result also carries.
proof fn lemma_cover_after_resolve(
    cache_pre: Seq<(String, String)>,
    cache_now: Seq<(String, String)>,
    cats: &CatalogueSet,
    ms_pre: Seq<PackageVersion>,
    ms_now: Seq<PackageVersion>,
    p: RequestV,
    ck: Seq<char>,
    node: DAGNode,
)
    requires
        root_covered(cache_pre, cats, ms_pre, p),
        resolved_from(cats, node),
        ms_pre.len() <= ms_now.len(),
        forall|k: int| 0 <= k < ms_pre.len() ==> #[trigger] ms_now[k] == ms_pre[k],
        exists|ri: int|
            0 <= ri < ms_now.len() && spec_key((#[trigger] ms_now[ri])@) == spec_key(node.info@),
        pair_index(cache_now, ck) matches Some(fi) && cache_now[fi].1@ == node.package@,
        cache_now.len() == cache_pre.len() || (cache_now.len() == cache_pre.len() + 1
            && cache_now[cache_pre.len() as int].0@ == ck),
        forall|e: int|
            0 <= e < cache_pre.len() ==> (#[trigger] cache_now[e]).0@ == cache_pre[e].0@ && (
            cache_now[e].1@ == cache_pre[e].1@ || cache_now[e].0@ == ck),
    ensures
        root_covered(cache_now, cats, ms_now, p),
{
    let n_old = choose|n: DAGNode|
        #![trigger resolved_from(cats, n)]
        resolved_from(cats, n) && ({
            let fi = pair_index(cache_pre, req_key_of(p));
            fi is Some && cache_pre[fi->0].1@ == n.package@
        }) && (exists|ri: int|
            0 <= ri < ms_pre.len() && spec_key((#[trigger] ms_pre[ri])@) == spec_key(n.info@));
    lemma_pair_index(cache_pre, req_key_of(p));
    let j = pair_index(cache_pre, req_key_of(p))->0;
    assert(cache_pre[j].0@ == req_key_of(p));
    assert forall|e: int| 0 <= e < j implies (#[trigger] cache_now[e]).0@ != req_key_of(p) by {
        assert(cache_pre[e].0@ != req_key_of(p));
    }
    assert(cache_now[j].0@ == req_key_of(p));
    lemma_pair_index_at(cache_now, req_key_of(p), j);
    if cache_now[j].1@ == cache_pre[j].1@ {
        // The old node still names the cached value.
        let ri = choose|ri: int|
            0 <= ri < ms_pre.len() && spec_key((#[trigger] ms_pre[ri])@) == spec_key(n_old.info@);
        assert(ms_now[ri] == ms_pre[ri]);
        assert(root_covered(cache_now, cats, ms_now, p));
    } else {
        // The entry was this call's: the request keys coincide, so the
        // call's node covers `p` now.
        assert(cache_now[j].0@ == ck);
        assert(req_key_of(p) == ck);
        let fi = pair_index(cache_now, ck)->0;
        assert(fi == j);
        assert(cache_now[j].1@ == node.package@);
        assert(root_covered(cache_now, cats, ms_now, p));
    }
}

/// The request a rendered dependency key re-parses to: the text before
/// the last `@` names the package, the text after it is the range.
pub open spec fn dep_request_of(k: Seq<char>) -> RequestV {
    match rfind_char(k, '@') {
        Some(q) => RequestV { name: k.take(q), version: Some(k.skip(q + 1)) },
        None => RequestV { name: k, version: None },
    }
}

/// A rendered dependency key is settled in `ms` under `cache`: when its
/// request is answerable, either a manifest under that very key stands in
/// `ms`, or the request is covered like a root.
pub open spec fn dep_handled(
    cache: Seq<(String, String)>,
    cats: &CatalogueSet,
    ms: Seq<PackageVersion>,
    k: Seq<char>,
) -> bool {
    root_answerable(cats, dep_request_of(k)) ==> (manifest_keys(ms).contains(k) || root_covered(
        cache,
        cats,
        ms,
        dep_request_of(k),
    ))
}

/// A request equal to the key's re-parse still waits in the queue.
pub open spec fn dep_pending(q: Seq<RequestPackage>, k: Seq<char>) -> bool {
    exists|t: int| 0 <= t < q.len() && (#[trigger] q[t])@ == dep_request_of(k)
}

/// Every rendered dependency key carries an `@`.
pub proof fn lemma_dep_key_has_at(m: ManifestV, dj: int)
    requires
        0 <= dj < spec_dep_keys(m).len(),
    ensures
        rfind_char(spec_dep_keys(m)[dj], '@') is Some,
{
    let k = spec_dep_keys(m)[dj];
    let d0 = render_pairs(m.deps);
    let d1 = render_pairs(m.opt_deps);
    let d2 = render_pairs(m.peer_deps);
    let at: int = if dj < d0.len() {
        assert(k == d0[dj]);
        assert(d0[dj] == m.deps[dj].0 + seq!['@'] + m.deps[dj].1);
        m.deps[dj].0.len() as int
    } else if dj < d0.len() + d1.len() {
        let u = dj - d0.len();
        assert(k == d1[u]);
        assert(d1[u] == m.opt_deps[u].0 + seq!['@'] + m.opt_deps[u].1);
        m.opt_deps[u].0.len() as int
    } else {
        let u = dj - d0.len() - d1.len();
        assert(k == d2[u]);
        assert(d2[u] == m.peer_deps[u].0 + seq!['@'] + m.peer_deps[u].1);
        m.peer_deps[u].0.len() as int
    };
    assert(k[at] == '@');
    lemma_rfind_char(k, '@');
    if rfind_char(k, '@') is None {
        assert(k[at] != '@');
    }
}

/// The concrete keys of one catalogue's manifests.
pub open spec fn cat_keys(entry: Seq<(String, PackageVersion)>) -> Seq<Seq<char>> {
    entry.map_values(|p: (String, PackageVersion)| spec_key(p.1@))
}

/// The concrete keys of every manifest in every cached catalogue.
pub open spec fn all_cat_keys(s: Seq<(String, Vec<(String, PackageVersion)>)>) -> Seq<Seq<char>>
    decreases s.len(),
{
    if s.len() == 0 {
        Seq::<Seq<char>>::empty()
    } else {
        cat_keys(s.first().1@) + all_cat_keys(s.drop_first())
    }
}

/// Every listed manifest's key stands among all catalogue keys.
pub proof fn lemma_all_cat_keys_contains(
    s: Seq<(String, Vec<(String, PackageVersion)>)>,
    ci: int,
    vi: int,
)
    requires
        0 <= ci < s.len(),
        0 <= vi < s[ci].1@.len(),
    ensures
        all_cat_keys(s).contains(spec_key(s[ci].1@[vi].1@)),
    decreases s.len(),
{
    let left = cat_keys(s.first().1@);
    let rest = all_cat_keys(s.drop_first());
    if ci == 0 {
        assert(left[vi] == spec_key(s[0].1@[vi].1@));
        assert((left + rest)[vi] == left[vi]);
        assert(all_cat_keys(s).contains(spec_key(s[ci].1@[vi].1@)));
    } else {
        assert(s.drop_first()[ci - 1] == s[ci]);
        lemma_all_cat_keys_contains(s.drop_first(), ci - 1, vi);
        let k = spec_key(s[ci].1@[vi].1@);
        let t = choose|t: int| 0 <= t < rest.len() && rest[t] == k;
        assert((left + rest)[left.len() + t] == rest[t]);
        assert(all_cat_keys(s).contains(k));
    }
}

/// Distinct keys that all occur in `ys` are no more numerous than `ys`.
pub proof fn lemma_distinct_in_seq_bound(xs: Seq<Seq<char>>, ys: Seq<Seq<char>>)
    requires
        xs.no_duplicates(),
        forall|t: int| 0 <= t < xs.len() ==> ys.contains(#[trigger] xs[t]),
    ensures
        xs.len() <= ys.len(),
{
    broadcast use vstd::seq_lib::seq_to_set_is_finite;

    xs.unique_seq_to_set();
    ys.lemma_cardinality_of_set();
    assert forall|k: Seq<char>| xs.to_set().contains(k) implies ys.to_set().contains(k) by {
        assert(xs.contains(k));
        let t = choose|t: int| 0 <= t < xs.len() && xs[t] == k;
        assert(ys.contains(xs[t]));
    }
    assert(xs.to_set().subset_of(ys.to_set()));
    vstd::set_lib::lemma_len_subset(xs.to_set(), ys.to_set());
}

/// The concrete keys of a run of manifests.
pub open spec fn manifest_keys(s: Seq<PackageVersion>) -> Seq<Seq<char>> {
    s.map_values(|m: PackageVersion| spec_key(m@))
}

/// The concrete keys of a run of manifest models.
pub open spec fn manifest_keys_v(s: Seq<ManifestV>) -> Seq<Seq<char>> {
    s.map_values(|m: ManifestV| spec_key(m))
}

/// A key mapped through the resolution cache: the concrete key a cached
/// request resolved to, or the key itself when no entry names it.
pub open spec fn spec_translate_key(cache: Seq<(String, String)>, key: Seq<char>) -> Seq<char> {
    match pair_index(cache, key) {
        Some(i) => cache[i].1@,
        None => key,
    }
}

/// A manifest's dependency keys with every cached request replaced by
/// the concrete key it resolved to.
pub open spec fn spec_resolved_dep_keys(cache: Seq<(String, String)>, m: ManifestV) -> Seq<
    Seq<char>,
> {
    spec_dep_keys(m).map_values(|k: Seq<char>| spec_translate_key(cache, k))
}

impl DAGBuilder {
    /// A manifest's dependency keys, each request rendered `name@range`
    /// and then mapped through the resolution cache, so that a resolved
    /// dependency names its concrete node.
    pub fn resolved_dep_keys(&self, info: &PackageVersion) -> (r: Vec<String>)
        ensures
            strs_view(r@) == spec_resolved_dep_keys(self.resolution_cache@, info@),
    {
        let raw = dep_keys_of(info);
        let mut out: Vec<String> = Vec::new();
        let n = raw.len();
        let mut i: usize = 0;
        proof {
            assert(strs_view(out@) =~= Seq::<Seq<char>>::empty());
            assert(spec_resolved_dep_keys(self.resolution_cache@, info@).len() == n);
        }
        while i < n
            invariant
                0 <= i <= n,
                n == raw@.len(),
                strs_view(raw@) == spec_dep_keys(info@),
                forall|k: int|
                    0 <= k < i ==> #[trigger] strs_view(out@)[k] == spec_resolved_dep_keys(
                        self.resolution_cache@,
                        info@,
                    )[k],
                out@.len() == i,
            decreases n - i,
        {
            let ghost pre = out@;
            match pair_get(&self.resolution_cache, raw[i].as_str()) {
                Some(v) => {
                    out.push(v.clone());
                },
                None => {
                    out.push(raw[i].clone());
                },
            }
            proof {
                assert(forall|k: int| 0 <= k < pre.len() ==> #[trigger] out@[k] == pre[k]);
                assert(spec_dep_keys(info@)[i as int] == raw@[i as int]@);
                assert(strs_view(out@)[i as int] == spec_translate_key(
                    self.resolution_cache@,
                    spec_dep_keys(info@)[i as int],
                ));
                assert(spec_resolved_dep_keys(self.resolution_cache@, info@)[i as int]
                    == spec_translate_key(self.resolution_cache@, spec_dep_keys(info@)[i as int]));
                assert forall|k: int| 0 <= k < i + 1 implies #[trigger] strs_view(out@)[k]
                    == spec_resolved_dep_keys(self.resolution_cache@, info@)[k] by {
                    if k < i {
                        assert(strs_view(pre)[k] == spec_resolved_dep_keys(
                            self.resolution_cache@,
                            info@,
                        )[k]);
                        assert(out@[k] == pre[k]);
                        assert(strs_view(out@)[k] == strs_view(pre)[k]);
                    }
                }
            }
            i = i + 1;
        }
        proof {
            assert(strs_view(out@) =~= spec_resolved_dep_keys(self.resolution_cache@, info@));
        }
        out
    }

    /// Resolves the transitive closure of the requests against the cached
    /// catalogues: each reachable package once, by its greatest satisfying
    /// version. Returns the resolved manifests, their keys distinct and
    /// each restating a catalogue line, and the names that were reached
    /// but have no catalogue yet: supply those and build again.
    pub fn build_missing_only(
        &mut self,
        packages: Vec<RequestPackage>,
        catalogues: &CatalogueSet,
    ) -> (r: (Vec<PackageVersion>, Vec<String>))
        ensures
            manifest_keys(r.0@).no_duplicates(),
            forall|mi: int| 0 <= mi < r.0@.len() ==> manifest_in(catalogues, #[trigger] r.0@[mi]),
            forall|ni: int|
                0 <= ni < r.1@.len() ==> !catalogues.spec_contains((#[trigger] r.1@[ni])@),
            forall|pi: int|
                0 <= pi < packages@.len() && !catalogues.spec_contains(
                    (#[trigger] packages@[pi])@.name,
                ) ==> strs_view(r.1@).contains(packages@[pi]@.name),
            forall|pi: int|
                0 <= pi < packages@.len() && root_answerable(
                    catalogues,
                    (#[trigger] packages@[pi])@,
                ) ==> root_covered(
                    final(self).resolution_cache@,
                    catalogues,
                    r.0@,
                    packages@[pi]@,
                ),
            forall|mi: int, dj: int|
                #![trigger spec_dep_keys(r.0@[mi]@)[dj]]
                0 <= mi < r.0@.len() && 0 <= dj < spec_dep_keys(r.0@[mi]@).len() ==> dep_handled(
                    final(self).resolution_cache@,
                    catalogues,
                    r.0@,
                    spec_dep_keys(r.0@[mi]@)[dj],
                ),
    {
        let mut resolved: Vec<PackageVersion> = Vec::new();
        let mut needed: Vec<String> = Vec::new();
        let mut seen: Vec<String> = Vec::new();
        let ghost roots = packages@;
        let mut to_process: Vec<RequestPackage> = packages;
        let ghost total = all_cat_keys(catalogues.entries@);
        proof {
            assert(strs_view(seen@) =~= Seq::<Seq<char>>::empty());
            assert(manifest_keys(resolved@) =~= Seq::<Seq<char>>::empty());
            assert(forall|pi: int|
                0 <= pi < roots.len() ==> #[trigger] to_process@[pi] == roots[pi]);
        }
        while to_process.len() > 0
            invariant
                strs_view(seen@).no_duplicates(),
                forall|t: int|
                    0 <= t < seen@.len() ==> total.contains(#[trigger] strs_view(seen@)[t]),
                seen@.len() <= total.len(),
                manifest_keys(resolved@) == strs_view(seen@),
                forall|mi: int|
                    0 <= mi < resolved@.len() ==> manifest_in(catalogues, #[trigger] resolved@[mi]),
                forall|ni: int|
                    0 <= ni < needed@.len() ==> !catalogues.spec_contains(
                        (#[trigger] needed@[ni])@,
                    ),
                forall|pi: int|
                    0 <= pi < roots.len() && !catalogues.spec_contains(
                        (#[trigger] roots[pi])@.name,
                    ) ==> (strs_view(needed@).contains(roots[pi]@.name) || exists|t: int|
                        0 <= t < to_process@.len() && (#[trigger] to_process@[t])@.name
                            == roots[pi]@.name),
                forall|pi: int|
                    0 <= pi < roots.len() && root_answerable(catalogues, (#[trigger] roots[pi])@)
                        ==> ((exists|t: int|
                        0 <= t < to_process@.len() && (#[trigger] to_process@[t])@
                            == roots[pi]@) || root_covered(
                        self.resolution_cache@,
                        catalogues,
                        resolved@,
                        roots[pi]@,
                    )),
                forall|mi: int, dj: int|
                    #![trigger spec_dep_keys(resolved@[mi]@)[dj]]
                    0 <= mi < resolved@.len() && 0 <= dj < spec_dep_keys(resolved@[mi]@).len()
                        ==> (dep_handled(
                        self.resolution_cache@,
                        catalogues,
                        resolved@,
                        spec_dep_keys(resolved@[mi]@)[dj],
                    ) || dep_pending(to_process@, spec_dep_keys(resolved@[mi]@)[dj])),
                total == all_cat_keys(catalogues.entries@),
            decreases total.len() - seen@.len(), to_process@.len(),
        {
            let ghost q_pre = to_process@;
            let req = to_process.pop().unwrap();
            proof {
                assert forall|pi: int|
                    0 <= pi < roots.len() && !catalogues.spec_contains(
                        (#[trigger] roots[pi])@.name,
                    ) implies (strs_view(needed@).contains(roots[pi]@.name) || req@.name
                        == roots[pi]@.name || exists|t: int|
                        0 <= t < to_process@.len() && (#[trigger] to_process@[t])@.name
                            == roots[pi]@.name) by {
                    if !strs_view(needed@).contains(roots[pi]@.name) {
                        let w = choose|t: int|
                            0 <= t < q_pre.len() && (#[trigger] q_pre[t])@.name
                                == roots[pi]@.name;
                        if w < q_pre.len() - 1 {
                            assert(to_process@[w] == q_pre[w]);
                        } else {
                            assert(req == q_pre[w]);
                        }
                    }
                }
                assert forall|pi: int|
                    0 <= pi < roots.len() && root_answerable(
                        catalogues,
                        (#[trigger] roots[pi])@,
                    ) implies (req@ == roots[pi]@ || (exists|t: int|
                    0 <= t < to_process@.len() && (#[trigger] to_process@[t])@ == roots[pi]@)
                    || root_covered(
                    self.resolution_cache@,
                    catalogues,
                    resolved@,
                    roots[pi]@,
                )) by {
                    if !root_covered(self.resolution_cache@, catalogues, resolved@, roots[pi]@) {
                        let w = choose|t: int|
                            0 <= t < q_pre.len() && (#[trigger] q_pre[t])@ == roots[pi]@;
                        if w < q_pre.len() - 1 {
                            assert(to_process@[w] == q_pre[w]);
                        } else {
                            assert(req == q_pre[w]);
                        }
                    }
                }
                assert forall|mi: int, dj: int|
                    #![trigger spec_dep_keys(resolved@[mi]@)[dj]]
                    0 <= mi < resolved@.len() && 0 <= dj < spec_dep_keys(
                        resolved@[mi]@,
                    ).len() implies (dep_handled(
                    self.resolution_cache@,
                    catalogues,
                    resolved@,
                    spec_dep_keys(resolved@[mi]@)[dj],
                ) || req@ == dep_request_of(spec_dep_keys(resolved@[mi]@)[dj]) || dep_pending(
                    to_process@,
                    spec_dep_keys(resolved@[mi]@)[dj],
                )) by {
                    let k = spec_dep_keys(resolved@[mi]@)[dj];
                    if !dep_handled(self.resolution_cache@, catalogues, resolved@, k)
                        && dep_pending(q_pre, k) {
                        let w = choose|t: int|
                            0 <= t < q_pre.len() && (#[trigger] q_pre[t])@ == dep_request_of(k);
                        if w < q_pre.len() - 1 {
                            assert(to_process@[w] == q_pre[w]);
                        } else {
                            assert(req == q_pre[w]);
                        }
                    }
                }
            }
            if !catalogues.contains(req.name.as_str()) {
                let ghost needed_pre = needed@;
                if !contains_str(&needed, req.name.as_str()) {
                    needed.push(req.name);
                }
                proof {
                    assert forall|pi: int|
                        0 <= pi < roots.len() && !catalogues.spec_contains(
                            (#[trigger] roots[pi])@.name,
                        ) implies (strs_view(needed@).contains(roots[pi]@.name) || exists|t: int|
                            0 <= t < to_process@.len() && (#[trigger] to_process@[t])@.name
                                == roots[pi]@.name) by {
                        if strs_view(needed_pre).contains(roots[pi]@.name) {
                            let u = choose|u: int|
                                0 <= u < needed_pre.len() && strs_view(needed_pre)[u]
                                    == roots[pi]@.name;
                            assert(strs_view(needed@)[u] == roots[pi]@.name);
                        } else if roots[pi]@.name == req@.name {
                            assert(strs_view(needed@).contains(req@.name)) by {
                                if needed@.len() > needed_pre.len() {
                                    assert(strs_view(needed@)[needed_pre.len() as int]
                                        == req@.name);
                                } else {
                                    assert(strs_view(needed@).contains(req@.name));
                                }
                            }
                        }
                    }
                    assert forall|pi: int|
                        0 <= pi < roots.len() && root_answerable(
                            catalogues,
                            (#[trigger] roots[pi])@,
                        ) implies ((exists|t: int|
                        0 <= t < to_process@.len() && (#[trigger] to_process@[t])@
                            == roots[pi]@) || root_covered(
                        self.resolution_cache@,
                        catalogues,
                        resolved@,
                        roots[pi]@,
                    )) by {
                        assert(roots[pi]@.name != req@.name);
                        assert(roots[pi]@ != req@);
                    }
                    assert forall|mi: int, dj: int|
                        #![trigger spec_dep_keys(resolved@[mi]@)[dj]]
                        0 <= mi < resolved@.len() && 0 <= dj < spec_dep_keys(
                            resolved@[mi]@,
                        ).len() implies (dep_handled(
                        self.resolution_cache@,
                        catalogues,
                        resolved@,
                        spec_dep_keys(resolved@[mi]@)[dj],
                    ) || dep_pending(to_process@, spec_dep_keys(resolved@[mi]@)[dj])) by {
                        let k = spec_dep_keys(resolved@[mi]@)[dj];
                        if req@ == dep_request_of(k) {
                            assert(!catalogues.spec_contains(dep_request_of(k).name));
                            assert(dep_handled(self.resolution_cache@, catalogues, resolved@, k));
                        }
                    }
                }
                continue ;
            }
            proof {
                assert forall|pi: int|
                    0 <= pi < roots.len() && !catalogues.spec_contains(
                        (#[trigger] roots[pi])@.name,
                    ) implies (strs_view(needed@).contains(roots[pi]@.name) || exists|t: int|
                        0 <= t < to_process@.len() && (#[trigger] to_process@[t])@.name
                            == roots[pi]@.name) by {
                    assert(roots[pi]@.name != req@.name);
                }
            }
            let ghost cache_pre = self.resolution_cache@;
            let node = match self.resolve_single(&req, catalogues) {
                Some(n) => n,
                None => {
                    proof {
                        assert forall|pi: int|
                            0 <= pi < roots.len() && root_answerable(
                                catalogues,
                                (#[trigger] roots[pi])@,
                            ) implies ((exists|t: int|
                            0 <= t < to_process@.len() && (#[trigger] to_process@[t])@
                                == roots[pi]@) || root_covered(
                            self.resolution_cache@,
                            catalogues,
                            resolved@,
                            roots[pi]@,
                        )) by {
                            if req@ == roots[pi]@ {
                                assert(!answerable(
                                    catalogues.entries@[cat_index(
                                        catalogues.entries@,
                                        req@.name,
                                    )->0].1@,
                                    req_range(req@),
                                ));
                            }
                        }
                        assert forall|mi: int, dj: int|
                            #![trigger spec_dep_keys(resolved@[mi]@)[dj]]
                            0 <= mi < resolved@.len() && 0 <= dj < spec_dep_keys(
                                resolved@[mi]@,
                            ).len() implies (dep_handled(
                            self.resolution_cache@,
                            catalogues,
                            resolved@,
                            spec_dep_keys(resolved@[mi]@)[dj],
                        ) || dep_pending(to_process@, spec_dep_keys(resolved@[mi]@)[dj])) by {
                            let k = spec_dep_keys(resolved@[mi]@)[dj];
                            if req@ == dep_request_of(k) && root_answerable(
                                catalogues,
                                dep_request_of(k),
                            ) {
                                assert(!answerable(
                                    catalogues.entries@[cat_index(
                                        catalogues.entries@,
                                        req@.name,
                                    )->0].1@,
                                    req_range(req@),
                                ));
                            }
                        }
                    }
                    continue ;
                },
            };
            let ghost gnode = node;
            let key = key_of_manifest(&node.info);
            if contains_str(&seen, key.as_str()) {
                proof {
                    let u = choose|u: int|
                        0 <= u < strs_view(seen@).len() && strs_view(seen@)[u] == key@;
                    assert(manifest_keys(resolved@)[u] == key@);
                    assert(exists|ri: int|
                        0 <= ri < resolved@.len() && spec_key((#[trigger] resolved@[ri])@)
                            == spec_key(gnode.info@));
                    assert forall|pi: int|
                        0 <= pi < roots.len() && root_answerable(
                            catalogues,
                            (#[trigger] roots[pi])@,
                        ) implies ((exists|t: int|
                        0 <= t < to_process@.len() && (#[trigger] to_process@[t])@
                            == roots[pi]@) || root_covered(
                        self.resolution_cache@,
                        catalogues,
                        resolved@,
                        roots[pi]@,
                    )) by {
                        let p = roots[pi]@;
                        if req@ == p {
                            assert(root_covered(
                                self.resolution_cache@,
                                catalogues,
                                resolved@,
                                p,
                            ));
                        } else if root_covered(cache_pre, catalogues, resolved@, p) {
                            lemma_cover_after_resolve(
                                cache_pre,
                                self.resolution_cache@,
                                catalogues,
                                resolved@,
                                resolved@,
                                p,
                                req_key_of(req@),
                                gnode,
                            );
                        }
                    }
                    assert forall|mi: int, dj: int|
                        #![trigger spec_dep_keys(resolved@[mi]@)[dj]]
                        0 <= mi < resolved@.len() && 0 <= dj < spec_dep_keys(
                            resolved@[mi]@,
                        ).len() implies (dep_handled(
                        self.resolution_cache@,
                        catalogues,
                        resolved@,
                        spec_dep_keys(resolved@[mi]@)[dj],
                    ) || dep_pending(to_process@, spec_dep_keys(resolved@[mi]@)[dj])) by {
                        let k = spec_dep_keys(resolved@[mi]@)[dj];
                        if req@ == dep_request_of(k) {
                            assert(root_covered(
                                self.resolution_cache@,
                                catalogues,
                                resolved@,
                                dep_request_of(k),
                            ));
                        } else if dep_handled(cache_pre, catalogues, resolved@, k) {
                            if root_answerable(catalogues, dep_request_of(k))
                                && !manifest_keys(resolved@).contains(k) {
                                lemma_cover_after_resolve(
                                    cache_pre,
                                    self.resolution_cache@,
                                    catalogues,
                                    resolved@,
                                    resolved@,
                                    dep_request_of(k),
                                    req_key_of(req@),
                                    gnode,
                                );
                            }
                        }
                    }
                }
                continue ;
            }
            let DAGNode { package: _, dependencies: node_deps, info } = node;
            proof {
                let (ci, vi) = choose|ci: int, vi: int|
                    0 <= ci < catalogues.entries@.len() && 0 <= vi
                        < catalogues.entries@[ci].1@.len() && info@ == (
                    #[trigger] catalogues.entries@[ci].1@[vi]).1@;
                lemma_all_cat_keys_contains(catalogues.entries@, ci, vi);
                assert(spec_key(info@) == spec_key(catalogues.entries@[ci].1@[vi].1@));
            }
            let ghost seen_pre = seen@;
            let ghost resolved_pre = resolved@;
            seen.push(key);
            resolved.push(info);
            proof {
                assert(forall|k: int| 0 <= k < seen_pre.len() ==> #[trigger] seen@[k] == seen_pre[
                    k
                ]);
                assert(forall|k: int|
                    0 <= k < resolved_pre.len() ==> #[trigger] resolved@[k] == resolved_pre[k]);
                assert(strs_view(seen@) =~= strs_view(seen_pre).push(spec_key(
                    resolved@[resolved_pre.len() as int]@,
                )));
                assert forall|k: int| 0 <= k < manifest_keys(resolved@).len() implies #[trigger] manifest_keys(
                    resolved@,
                )[k] == strs_view(seen@)[k] by {
                    if k < resolved_pre.len() {
                        assert(manifest_keys(resolved_pre)[k] == strs_view(seen_pre)[k]);
                    }
                }
                assert(manifest_keys(resolved@) =~= strs_view(seen@));
                lemma_distinct_in_seq_bound(strs_view(seen@), total);
                assert(spec_key(resolved@[resolved_pre.len() as int]@) == spec_key(gnode.info@));
                assert(exists|ri: int|
                    0 <= ri < resolved@.len() && spec_key((#[trigger] resolved@[ri])@)
                        == spec_key(gnode.info@));
                assert forall|pi: int|
                    0 <= pi < roots.len() && root_answerable(
                        catalogues,
                        (#[trigger] roots[pi])@,
                    ) implies ((exists|t: int|
                    0 <= t < to_process@.len() && (#[trigger] to_process@[t])@ == roots[pi]@)
                    || root_covered(
                    self.resolution_cache@,
                    catalogues,
                    resolved@,
                    roots[pi]@,
                )) by {
                    let p = roots[pi]@;
                    if req@ == p {
                        assert(root_covered(self.resolution_cache@, catalogues, resolved@, p));
                    } else if root_covered(cache_pre, catalogues, resolved_pre, p) {
                        lemma_cover_after_resolve(
                            cache_pre,
                            self.resolution_cache@,
                            catalogues,
                            resolved_pre,
                            resolved@,
                            p,
                            req_key_of(req@),
                            gnode,
                        );
                    }
                }
                assert forall|mi: int, dj: int|
                    #![trigger spec_dep_keys(resolved@[mi]@)[dj]]
                    0 <= mi < resolved@.len() - 1 && 0 <= dj < spec_dep_keys(
                        resolved@[mi]@,
                    ).len() implies (dep_handled(
                    self.resolution_cache@,
                    catalogues,
                    resolved@,
                    spec_dep_keys(resolved@[mi]@)[dj],
                ) || dep_pending(to_process@, spec_dep_keys(resolved@[mi]@)[dj])) by {
                    assert(resolved@[mi] == resolved_pre[mi]);
                    let k = spec_dep_keys(resolved_pre[mi]@)[dj];
                    if req@ == dep_request_of(k) {
                        assert(root_covered(
                            self.resolution_cache@,
                            catalogues,
                            resolved@,
                            dep_request_of(k),
                        ));
                    } else if dep_handled(cache_pre, catalogues, resolved_pre, k) {
                        if root_answerable(catalogues, dep_request_of(k)) {
                            if manifest_keys(resolved_pre).contains(k) {
                                let u = choose|u: int|
                                    0 <= u < manifest_keys(resolved_pre).len()
                                        && #[trigger] manifest_keys(resolved_pre)[u] == k;
                                assert(manifest_keys(resolved@)[u] == k);
                            } else {
                                lemma_cover_after_resolve(
                                    cache_pre,
                                    self.resolution_cache@,
                                    catalogues,
                                    resolved_pre,
                                    resolved@,
                                    dep_request_of(k),
                                    req_key_of(req@),
                                    gnode,
                                );
                            }
                        }
                    }
                }
                assert(strs_view(node_deps@) == spec_dep_keys(
                    resolved@[resolved@.len() - 1]@,
                ));
            }
            let nd = node_deps.len();
            let mut j: usize = 0;
            while j < nd
                invariant
                    0 <= j <= nd,
                    nd == node_deps@.len(),
                    resolved@.len() > 0,
                    manifest_keys(resolved@) == strs_view(seen@),
                    strs_view(node_deps@) == spec_dep_keys(resolved@[resolved@.len() - 1]@),
                    forall|pi: int|
                        0 <= pi < roots.len() && !catalogues.spec_contains(
                            (#[trigger] roots[pi])@.name,
                        ) ==> (strs_view(needed@).contains(roots[pi]@.name) || exists|t: int|
                            0 <= t < to_process@.len() && (#[trigger] to_process@[t])@.name
                                == roots[pi]@.name),
                    forall|pi: int|
                        0 <= pi < roots.len() && root_answerable(
                            catalogues,
                            (#[trigger] roots[pi])@,
                        ) ==> ((exists|t: int|
                            0 <= t < to_process@.len() && (#[trigger] to_process@[t])@
                                == roots[pi]@) || root_covered(
                            self.resolution_cache@,
                            catalogues,
                            resolved@,
                            roots[pi]@,
                        )),
                    forall|mi: int, dj: int|
                        #![trigger spec_dep_keys(resolved@[mi]@)[dj]]
                        0 <= mi < resolved@.len() - 1 && 0 <= dj < spec_dep_keys(
                            resolved@[mi]@,
                        ).len() ==> (dep_handled(
                            self.resolution_cache@,
                            catalogues,
                            resolved@,
                            spec_dep_keys(resolved@[mi]@)[dj],
                        ) || dep_pending(to_process@, spec_dep_keys(resolved@[mi]@)[dj])),
                    forall|dj: int|
                        0 <= dj < j ==> (dep_handled(
                            self.resolution_cache@,
                            catalogues,
                            resolved@,
                            #[trigger] spec_dep_keys(resolved@[resolved@.len() - 1]@)[dj],
                        ) || dep_pending(
                            to_process@,
                            spec_dep_keys(resolved@[resolved@.len() - 1]@)[dj],
                        )),
                decreases nd - j,
            {
                let dep = &node_deps[j];
                proof {
                    assert(dep@ == spec_dep_keys(resolved@[resolved@.len() - 1]@)[j as int]);
                    lemma_dep_key_has_at(resolved@[resolved@.len() - 1]@, j as int);
                }
                if let Some(pos) = rfind_char_in(dep.as_str(), '@') {
                    proof {
                        lemma_rfind_char(dep@, '@');
                    }
                    let dlen = dep.as_str().unicode_len();
                    let dep_name = String::from_str(dep.as_str().substring_char(0, pos));
                    let dep_version = String::from_str(
                        dep.as_str().substring_char(pos + 1, dlen),
                    );
                    let dep_key = join_at(dep_name.as_str(), dep_version.as_str());
                    proof {
                        assert(dep_name@ =~= dep@.take(pos as int));
                        assert(dep_version@ =~= dep@.skip(pos as int + 1));
                        assert(dep_key@ =~= dep@);
                    }
                    if !contains_str(&seen, dep_key.as_str()) {
                        let ghost q_mid = to_process@;
                        to_process.push(
                            RequestPackage { name: dep_name, version: Some(dep_version) },
                        );
                        proof {
                            assert(forall|t: int|
                                0 <= t < q_mid.len() ==> #[trigger] to_process@[t] == q_mid[t]);
                            assert forall|pi: int|
                                0 <= pi < roots.len() && !catalogues.spec_contains(
                                    (#[trigger] roots[pi])@.name,
                                ) implies (strs_view(needed@).contains(roots[pi]@.name) || exists|
                                    t: int,
                                |
                                    0 <= t < to_process@.len() && (
                                    #[trigger] to_process@[t])@.name == roots[pi]@.name) by {
                                if !strs_view(needed@).contains(roots[pi]@.name) {
                                    let w = choose|t: int|
                                        0 <= t < q_mid.len() && (#[trigger] q_mid[t])@.name
                                            == roots[pi]@.name;
                                    assert(to_process@[w]@.name == roots[pi]@.name);
                                }
                            }
                            assert forall|pi: int|
                                0 <= pi < roots.len() && root_answerable(
                                    catalogues,
                                    (#[trigger] roots[pi])@,
                                ) implies ((exists|t: int|
                                0 <= t < to_process@.len() && (#[trigger] to_process@[t])@
                                    == roots[pi]@) || root_covered(
                                self.resolution_cache@,
                                catalogues,
                                resolved@,
                                roots[pi]@,
                            )) by {
                                if !root_covered(
                                    self.resolution_cache@,
                                    catalogues,
                                    resolved@,
                                    roots[pi]@,
                                ) {
                                    let w = choose|t: int|
                                        0 <= t < q_mid.len() && (#[trigger] q_mid[t])@
                                            == roots[pi]@;
                                    assert(to_process@[w]@ == roots[pi]@);
                                }
                            }
                            assert forall|mi: int, dj: int|
                                #![trigger spec_dep_keys(resolved@[mi]@)[dj]]
                                0 <= mi < resolved@.len() - 1 && 0 <= dj < spec_dep_keys(
                                    resolved@[mi]@,
                                ).len() implies (dep_handled(
                                self.resolution_cache@,
                                catalogues,
                                resolved@,
                                spec_dep_keys(resolved@[mi]@)[dj],
                            ) || dep_pending(
                                to_process@,
                                spec_dep_keys(resolved@[mi]@)[dj],
                            )) by {
                                let k = spec_dep_keys(resolved@[mi]@)[dj];
                                if !dep_handled(self.resolution_cache@, catalogues, resolved@, k)
                                    && dep_pending(q_mid, k) {
                                    let w = choose|t: int|
                                        0 <= t < q_mid.len() && (#[trigger] q_mid[t])@
                                            == dep_request_of(k);
                                    assert(to_process@[w]@ == dep_request_of(k));
                                }
                            }
                            assert forall|dj: int| 0 <= dj < j + 1 implies (dep_handled(
                                self.resolution_cache@,
                                catalogues,
                                resolved@,
                                #[trigger] spec_dep_keys(resolved@[resolved@.len() - 1]@)[dj],
                            ) || dep_pending(
                                to_process@,
                                spec_dep_keys(resolved@[resolved@.len() - 1]@)[dj],
                            )) by {
                                let k = spec_dep_keys(resolved@[resolved@.len() - 1]@)[dj];
                                if dj < j {
                                    if !dep_handled(
                                        self.resolution_cache@,
                                        catalogues,
                                        resolved@,
                                        k,
                                    ) && dep_pending(q_mid, k) {
                                        let w = choose|t: int|
                                            0 <= t < q_mid.len() && (#[trigger] q_mid[t])@
                                                == dep_request_of(k);
                                        assert(to_process@[w]@ == dep_request_of(k));
                                    }
                                } else {
                                    assert(k == dep@);
                                    assert(rfind_char(k, '@') == Some(pos as int));
                                    assert(to_process@[q_mid.len() as int]@ == dep_request_of(
                                        k,
                                    ));
                                }
                            }
                        }
                    } else {
                        proof {
                            assert(strs_view(seen@).contains(dep_key@));
                            assert(manifest_keys(resolved@).contains(dep@));
                            assert forall|dj: int| 0 <= dj < j + 1 implies (dep_handled(
                                self.resolution_cache@,
                                catalogues,
                                resolved@,
                                #[trigger] spec_dep_keys(resolved@[resolved@.len() - 1]@)[dj],
                            ) || dep_pending(
                                to_process@,
                                spec_dep_keys(resolved@[resolved@.len() - 1]@)[dj],
                            )) by {
                                let k = spec_dep_keys(resolved@[resolved@.len() - 1]@)[dj];
                                if dj == j {
                                    assert(k == dep@);
                                    assert(dep_handled(
                                        self.resolution_cache@,
                                        catalogues,
                                        resolved@,
                                        k,
                                    ));
                                }
                            }
                        }
                    }
                }
                j = j + 1;
            }
        }
        (resolved, needed)
    }

    /// Builds the graph for one root request: resolves its transitive
    /// closure and assembles a node per manifest, keyed `name@version`
    /// with rendered dependency keys. Also returns the names still
    /// lacking a catalogue.
    pub fn build(&mut self, package: RequestPackage, catalogues: &CatalogueSet) -> (r: (
        DependencyGraph,
        Vec<String>,
    ))
        ensures
            r.0.wf(),
            forall|i: int|
                0 <= i < r.0.nodes@.len() ==> manifest_in(
                    catalogues,
                    (#[trigger] r.0.nodes@[i]).info,
                ),
            forall|i: int|
                0 <= i < r.0.nodes@.len() ==> (#[trigger] r.0.nodes@[i]).package@ == spec_key(
                    r.0.nodes@[i].info@,
                ),
            forall|i: int|
                0 <= i < r.0.nodes@.len() ==> strs_view(
                    (#[trigger] r.0.nodes@[i]).dependencies@,
                ) == spec_resolved_dep_keys(final(self).resolution_cache@, r.0.nodes@[i].info@),
            forall|ni: int|
                0 <= ni < r.1@.len() ==> !catalogues.spec_contains((#[trigger] r.1@[ni])@),
            root_answerable(catalogues, package@) ==> root_covered_in_graph(
                final(self).resolution_cache@,
                catalogues,
                &r.0,
                package@,
            ),
            forall|ni: int, dj: int|
                #![trigger spec_dep_keys(r.0.nodes@[ni].info@)[dj]]
                0 <= ni < r.0.nodes@.len() && 0 <= dj < spec_dep_keys(
                    r.0.nodes@[ni].info@,
                ).len() ==> (root_answerable(
                    catalogues,
                    dep_request_of(spec_dep_keys(r.0.nodes@[ni].info@)[dj]),
                ) ==> (r.0.has_key(spec_dep_keys(r.0.nodes@[ni].info@)[dj])
                    || root_covered_in_graph(
                    final(self).resolution_cache@,
                    catalogues,
                    &r.0,
                    dep_request_of(spec_dep_keys(r.0.nodes@[ni].info@)[dj]),
                ))),
    {
        let mut reqs: Vec<RequestPackage> = Vec::new();
        let ghost p0 = package@;
        reqs.push(package);
        proof {
            assert(reqs@[0]@ == p0);
        }
        let (resolved, needed) = self.build_missing_only(reqs, catalogues);
        let mut graph = DependencyGraph::with_capacity(resolved.len());
        let n = resolved.len();
        let mut i: usize = 0;
        let ghost cache_now = self.resolution_cache@;
        proof {
            assert(graph.keys() =~= manifest_keys(resolved@.take(0)));
        }
        while i < n
            invariant
                0 <= i <= n,
                n == resolved@.len(),
                self.resolution_cache@ == cache_now,
                graph.wf(),
                graph.nodes@.len() == i,
                manifest_keys(resolved@).no_duplicates(),
                forall|mi: int|
                    0 <= mi < resolved@.len() ==> manifest_in(catalogues, #[trigger] resolved@[mi]),
                forall|k: int|
                    0 <= k < i ==> (#[trigger] graph.nodes@[k]).package@ == spec_key(
                        resolved@[k]@,
                    ),
                forall|k: int|
                    0 <= k < i ==> (#[trigger] graph.nodes@[k]).info@ == resolved@[k]@,
                forall|k: int|
                    0 <= k < i ==> strs_view((#[trigger] graph.nodes@[k]).dependencies@)
                        == spec_resolved_dep_keys(cache_now, resolved@[k]@),
            decreases n - i,
        {
            let m = resolved[i].clone();
            let key = key_of_manifest(&m);
            let deps = self.resolved_dep_keys(&m);
            let node = DAGNode { package: key, dependencies: deps, info: m };
            proof {
                assert forall|k: int| 0 <= k < graph.nodes@.len() implies (
                #[trigger] graph.nodes@[k]).package@ != node.package@ by {
                    assert(graph.nodes@[k].package@ == spec_key(resolved@[k]@));
                    assert(manifest_keys(resolved@)[k] == spec_key(resolved@[k]@));
                    assert(manifest_keys(resolved@)[i as int] == spec_key(resolved@[i as int]@));
                    assert(spec_key(resolved@[k]@) != spec_key(resolved@[i as int]@));
                }
                lemma_node_index(graph.nodes@, node.package@);
            }
            let ghost nodes_pre = graph.nodes@;
            graph.add_node(node);
            proof {
                assert(graph.nodes@ == nodes_pre.push(node));
                assert(forall|k: int|
                    0 <= k < nodes_pre.len() ==> #[trigger] graph.nodes@[k] == nodes_pre[k]);
            }
            i = i + 1;
        }
        proof {
            assert forall|k: int| 0 <= k < graph.nodes@.len() implies manifest_in(
                catalogues,
                (#[trigger] graph.nodes@[k]).info,
            ) by {
                assert(manifest_in(catalogues, resolved@[k]));
                let (ci, vi) = choose|ci: int, vi: int|
                    0 <= ci < catalogues.entries@.len() && 0 <= vi
                        < catalogues.entries@[ci].1@.len() && resolved@[k]@ == (
                    #[trigger] catalogues.entries@[ci].1@[vi]).1@;
                assert(graph.nodes@[k].info@ == catalogues.entries@[ci].1@[vi].1@);
            }
            graph.lemma_key_uniqueness();
            assert forall|u: int| 0 <= u < resolved@.len() implies graph.has_key(
                #[trigger] manifest_keys(resolved@)[u],
            ) by {
                assert(graph.nodes@[u].package@ == spec_key(resolved@[u]@));
                assert(graph.spec_get(graph.nodes@[u].package@) == Some(graph.nodes@[u]));
            }
            if root_answerable(catalogues, p0) {
                assert(root_covered(self.resolution_cache@, catalogues, resolved@, p0));
                let n = choose|n: DAGNode|
                    #![trigger resolved_from(catalogues, n)]
                    resolved_from(catalogues, n) && ({
                        let fi = pair_index(self.resolution_cache@, req_key_of(p0));
                        fi is Some && self.resolution_cache@[fi->0].1@ == n.package@
                    }) && (exists|ri: int|
                        0 <= ri < resolved@.len() && spec_key((#[trigger] resolved@[ri])@)
                            == spec_key(n.info@));
                let ri = choose|ri: int|
                    0 <= ri < resolved@.len() && spec_key((#[trigger] resolved@[ri])@)
                        == spec_key(n.info@);
                assert(manifest_keys(resolved@)[ri] == spec_key(n.info@));
                assert(graph.has_key(spec_key(n.info@)));
                assert(root_covered_in_graph(self.resolution_cache@, catalogues, &graph, p0));
            }
            assert forall|ni: int, dj: int|
                #![trigger spec_dep_keys(graph.nodes@[ni].info@)[dj]]
                0 <= ni < graph.nodes@.len() && 0 <= dj < spec_dep_keys(
                    graph.nodes@[ni].info@,
                ).len() implies (root_answerable(
                catalogues,
                dep_request_of(spec_dep_keys(graph.nodes@[ni].info@)[dj]),
            ) ==> (graph.has_key(spec_dep_keys(graph.nodes@[ni].info@)[dj])
                || root_covered_in_graph(
                self.resolution_cache@,
                catalogues,
                &graph,
                dep_request_of(spec_dep_keys(graph.nodes@[ni].info@)[dj]),
            ))) by {
                assert(graph.nodes@[ni].info@ == resolved@[ni]@);
                let k = spec_dep_keys(resolved@[ni]@)[dj];
                assert(dep_handled(self.resolution_cache@, catalogues, resolved@, k));
                if root_answerable(catalogues, dep_request_of(k)) {
                    if manifest_keys(resolved@).contains(k) {
                        let u = choose|u: int|
                            0 <= u < manifest_keys(resolved@).len() && #[trigger] manifest_keys(
                                resolved@,
                            )[u] == k;
                        assert(graph.has_key(manifest_keys(resolved@)[u]));
                    } else {
                        let n = choose|n: DAGNode|
                            #![trigger resolved_from(catalogues, n)]
                            resolved_from(catalogues, n) && ({
                                let fi = pair_index(
                                    self.resolution_cache@,
                                    req_key_of(dep_request_of(k)),
                                );
                                fi is Some && self.resolution_cache@[fi->0].1@ == n.package@
                            }) && (exists|ri: int|
                                0 <= ri < resolved@.len() && spec_key((#[trigger] resolved@[ri])@)
                                    == spec_key(n.info@));
                        let ri = choose|ri: int|
                            0 <= ri < resolved@.len() && spec_key((#[trigger] resolved@[ri])@)
                                == spec_key(n.info@);
                        assert(manifest_keys(resolved@)[ri] == spec_key(n.info@));
                        assert(graph.has_key(spec_key(n.info@)));
                        assert(root_covered_in_graph(
                            self.resolution_cache@,
                            catalogues,
                            &graph,
                            dep_request_of(k),
                        ));
                    }
                }
            }
        }
        (graph, needed)
    }
}

} // verus!
