//! The store reference graph in compressed sparse row layout, and what is
//! reachable in it.
use crate::text;
use std::collections::HashSet;
use vstd::hash_map::StringHashMap;
use vstd::prelude::*;

verus! {

/// In-memory snapshot of the store reference graph in CSR layout.
pub struct StoreGraph {
    /// node idx -> store path string
    pub paths: Vec<String>,
    /// node idx -> narSize (bytes)
    pub nar_sizes: Vec<u64>,
    /// node idx -> registrationTime (Unix epoch seconds)
    pub registration_times: Vec<i64>,
    /// CSR row offsets: refs of node i are ref_targets[ref_offsets[i]..ref_offsets[i+1]]
    pub ref_offsets: Vec<u32>,
    /// CSR column indices: flat array of referenced node idxs
    pub ref_targets: Vec<u32>,
    /// store dir prefix including trailing slash, e.g. "/nix/store/"
    pub store_prefix: String,
}

/// True when every node of `nodes` is a node of a graph with `n` nodes.
pub open spec fn nodes_below(nodes: Seq<u32>, n: int) -> bool {
    forall|i: int| 0 <= i < nodes.len() ==> #[trigger] nodes[i] < n
}

impl StoreGraph {
    /// The number of nodes.
    pub open spec fn size(&self) -> int {
        self.paths@.len() as int
    }

    /// The layout is consistent: one row per node, rows in order and back to
    /// back, and every reference a node of the graph.
    pub open spec fn wf(&self) -> bool {
        &&& self.paths@.len() <= u32::MAX
        &&& self.nar_sizes@.len() == self.paths@.len()
        &&& self.registration_times@.len() == self.paths@.len()
        &&& self.ref_offsets@.len() == self.paths@.len() + 1
        &&& self.ref_offsets@[0] == 0
        &&& self.ref_offsets@[self.size()] == self.ref_targets@.len()
        &&& forall|i: int, j: int|
            0 <= i <= j < self.ref_offsets@.len() ==> self.ref_offsets@[i] <= self.ref_offsets@[j]
        &&& nodes_below(self.ref_targets@, self.size())
    }

    /// The nodes that `node` references, in row order.
    pub open spec fn refs_of(&self, node: u32) -> Seq<u32> {
        self.ref_targets@.subrange(
            self.ref_offsets@[node as int] as int,
            self.ref_offsets@[node as int + 1] as int,
        )
    }

    /// True when `a` references `b`.
    pub open spec fn refers(&self, a: u32, b: u32) -> bool {
        a < self.size() && self.refs_of(a).contains(b)
    }

    /// A walk along references: every node is referenced by the one before it.
    pub open spec fn is_walk(&self, walk: Seq<u32>) -> bool {
        &&& walk.len() > 0
        &&& nodes_below(walk, self.size())
        &&& forall|i: int|
            0 <= i < walk.len() - 1 ==> self.refers(#[trigger] walk[i], walk[i + 1])
    }

    /// True when some walk leads from `a` to `b`.
    pub open spec fn reaches(&self, a: u32, b: u32) -> bool {
        exists|walk: Seq<u32>| #[trigger]
            self.is_walk(walk) && walk[0] == a && walk[walk.len() - 1] == b
    }

    /// True when `node` is in the closure of `roots`.
    pub open spec fn live(&self, roots: Seq<u32>, node: u32) -> bool {
        exists|r: u32| #[trigger] roots.contains(r) && self.reaches(r, node)
    }

    /// Every node of the graph reaches itself.
    pub proof fn lemma_reaches_self(&self, a: u32)
        requires
            a < self.size(),
        ensures
            self.reaches(a, a),
    {
        let walk = seq![a];
        assert(self.is_walk(walk));
    }

    /// A walk can be continued along a reference.
    pub proof fn lemma_reaches_step(&self, a: u32, b: u32, c: u32)
        requires
            self.reaches(a, b),
            self.refers(b, c),
            c < self.size(),
        ensures
            self.reaches(a, c),
    {
        let walk = choose|walk: Seq<u32>| #[trigger]
            self.is_walk(walk) && walk[0] == a && walk[walk.len() - 1] == b;
        let longer = walk.push(c);
        assert forall|i: int| 0 <= i < longer.len() - 1 implies self.refers(
            #[trigger] longer[i],
            longer[i + 1],
        ) by {
            if i < walk.len() - 1 {
                assert(longer[i] == walk[i]);
                assert(longer[i + 1] == walk[i + 1]);
            }
        }
        assert(self.is_walk(longer));
    }

    /// A set of nodes that holds the roots and is closed under references
    /// holds everything live.
    pub proof fn lemma_closed_holds_live(&self, marked: Seq<bool>, roots: Seq<u32>, node: u32)
        requires
            self.live(roots, node),
            marked.len() == self.size(),
            forall|i: int| 0 <= i < roots.len() ==> marked[#[trigger] roots[i] as int],
            self.closed(marked),
        ensures
            marked[node as int],
    {
        let r = choose|r: u32| #[trigger] roots.contains(r) && self.reaches(r, node);
        let walk = choose|walk: Seq<u32>| #[trigger]
            self.is_walk(walk) && walk[0] == r && walk[walk.len() - 1] == node;
        self.lemma_closed_along(marked, walk, walk.len() - 1);
    }

    proof fn lemma_closed_along(&self, marked: Seq<bool>, walk: Seq<u32>, i: int)
        requires
            self.is_walk(walk),
            marked.len() == self.size(),
            marked[walk[0] as int],
            self.closed(marked),
            0 <= i < walk.len(),
        ensures
            marked[walk[i] as int],
        decreases i,
    {
        if i > 0 {
            self.lemma_closed_along(marked, walk, i - 1);
            assert(self.refers(walk[i - 1], walk[i - 1 + 1]));
        }
    }

    /// True when whatever a marked node references is marked.
    pub open spec fn closed(&self, marked: Seq<bool>) -> bool {
        forall|a: u32, b: u32|
            a < self.size() && marked[a as int] && #[trigger] self.refers(a, b)
                ==> marked[b as int]
    }

    /// Number of nodes.
    pub fn len(&self) -> (r: usize)
        ensures
            r == self.paths@.len(),
    {
        self.paths.len()
    }

    /// True when the graph has no node.
    pub fn is_empty(&self) -> (r: bool)
        ensures
            r == (self.paths@.len() == 0),
    {
        self.paths.len() == 0
    }

    /// The nodes that `node` references.
    pub fn refs(&self, node: u32) -> (r: &[u32])
        requires
            self.wf(),
            node < self.size(),
        ensures
            r@ == self.refs_of(node),
            nodes_below(r@, self.size()),
    {
        let start: usize = self.ref_offsets[node as usize] as usize;
        let end: usize = self.ref_offsets[node as usize + 1] as usize;
        let r = vstd::slice::slice_subrange(self.ref_targets.as_slice(), start, end);
        proof {
            assert forall|i: int| 0 <= i < r@.len() implies #[trigger] r@[i] < self.size() by {
                assert(r@[i] == self.ref_targets@[start + i]);
            }
        }
        r
    }

    /// Mark all nodes reachable from the given root indices.
    pub fn compute_closure(&self, roots: &[u32]) -> (alive: Vec<bool>)
        requires
            self.wf(),
            nodes_below(roots@, self.size()),
        ensures
            alive@.len() == self.size(),
            forall|node: u32|
                node < self.size() ==> (#[trigger] alive@[node as int] <==> self.live(
                    roots@,
                    node,
                )),
    {
        let n: usize = self.len();
        let mut alive: Vec<bool> = vec![false; n];
        let mut stack: Vec<u32> = Vec::new();
        let mut i: usize = 0;
        while i < roots.len()
            invariant
                self.wf(),
                nodes_below(roots@, self.size()),
                i <= roots@.len(),
                alive@.len() == self.size(),
                nodes_below(stack@, self.size()),
                forall|a: int| 0 <= a < self.size() && #[trigger] alive@[a] ==> stack@.contains(
                    a as u32,
                ) && self.live(roots@, a as u32),
                forall|k: int| 0 <= k < i ==> alive@[#[trigger] roots@[k] as int],
                forall|k: int| 0 <= k < stack@.len() ==> alive@[#[trigger] stack@[k] as int],
            decreases roots@.len() - i,
        {
            let r: u32 = roots[i];
            if !alive[r as usize] {
                let ghost before = stack@;
                alive[r as usize] = true;
                stack.push(r);
                proof {
                    self.lemma_reaches_self(r);
                    assert(roots@.contains(roots@[i as int]));
                    assert(stack@[before.len() as int] == r);
                    assert forall|a: int|
                        0 <= a < self.size() && #[trigger] alive@[a] implies stack@.contains(
                        a as u32,
                    ) && self.live(roots@, a as u32) by {
                        if a != r {
                            let k = choose|k: int| 0 <= k < before.len() && before[k] == a as u32;
                            assert(stack@[k] == a as u32);
                        }
                    }
                }
            }
            i += 1;
        }
        while stack.len() > 0
            invariant
                self.wf(),
                nodes_below(roots@, self.size()),
                alive@.len() == self.size(),
                nodes_below(stack@, self.size()),
                forall|k: int| 0 <= k < roots@.len() ==> alive@[#[trigger] roots@[k] as int],
                forall|a: int| 0 <= a < self.size() && #[trigger] alive@[a] ==> self.live(
                    roots@,
                    a as u32,
                ),
                forall|k: int| 0 <= k < stack@.len() ==> alive@[#[trigger] stack@[k] as int],
                forall|a: u32, b: u32|
                    a < self.size() && alive@[a as int] && !stack@.contains(a)
                        && #[trigger] self.refers(a, b) ==> alive@[b as int],
            decreases unmarked(alive@), stack@.len(),
        {
            let ghost stack0 = stack@;
            let node: u32 = match stack.pop() {
                Some(node) => node,
                None => 0,
            };
            proof {
                assert(node == stack0[stack0.len() - 1]);
                assert(stack@ == stack0.drop_last());
                assert forall|a: u32| #![trigger stack@.contains(a)]
                    stack0.contains(a) implies a == node || stack@.contains(a) by {
                    let k = choose|k: int| 0 <= k < stack0.len() && stack0[k] == a;
                    if k < stack0.len() - 1 {
                        assert(stack@[k] == a);
                    }
                }
            }
            let refs = self.refs(node);
            let ghost measure0 = unmarked(alive@);
            let ghost depth0 = stack@.len();
            let mut k: usize = 0;
            while k < refs.len()
                invariant
                    self.wf(),
                    refs@ == self.refs_of(node),
                    nodes_below(refs@, self.size()),
                    nodes_below(roots@, self.size()),
                    node < self.size(),
                    k <= refs@.len(),
                    alive@.len() == self.size(),
                    alive@[node as int],
                    nodes_below(stack@, self.size()),
                    forall|j: int| 0 <= j < roots@.len() ==> alive@[#[trigger] roots@[j] as int],
                    forall|a: int| 0 <= a < self.size() && #[trigger] alive@[a] ==> self.live(
                        roots@,
                        a as u32,
                    ),
                    forall|j: int| 0 <= j < stack@.len() ==> alive@[#[trigger] stack@[j] as int],
                    forall|j: int| 0 <= j < k ==> alive@[#[trigger] refs@[j] as int],
                    forall|a: u32, b: u32|
                        a < self.size() && alive@[a as int] && !stack@.contains(a) && a != node
                            && #[trigger] self.refers(a, b) ==> alive@[b as int],
                    unmarked(alive@) < measure0 || (unmarked(alive@) == measure0 && stack@.len()
                        == depth0),
                decreases refs@.len() - k,
            {
                let next: u32 = refs[k];
                if !alive[next as usize] {
                    let ghost stack1 = stack@;
                    let ghost alive1 = alive@;
                    proof {
                        lemma_mark(alive@, next as int);
                        assert(self.refs_of(node).contains(next)) by {
                            assert(refs@[k as int] == next);
                        }
                        let r = choose|r: u32| #[trigger]
                            roots@.contains(r) && self.reaches(r, node);
                        self.lemma_reaches_step(r, node, next);
                        assert(self.live(roots@, next));
                    }
                    alive[next as usize] = true;
                    stack.push(next);
                    proof {
                        assert(stack@[stack1.len() as int] == next);
                        assert forall|a: u32| stack1.contains(a) implies #[trigger] stack@.contains(
                            a,
                        ) by {
                            let j = choose|j: int| 0 <= j < stack1.len() && stack1[j] == a;
                            assert(stack@[j] == a);
                        }
                        assert forall|a: u32, b: u32|
                            a < self.size() && alive@[a as int] && !stack@.contains(a) && a != node
                                && #[trigger] self.refers(a, b) implies alive@[b as int] by {
                            if a == next {
                                assert(stack@.contains(next));
                            } else {
                                assert(alive1[a as int]);
                                assert(!stack1.contains(a));
                            }
                        }
                    }
                }
                k += 1;
            }
            proof {
                assert forall|a: u32, b: u32|
                    a < self.size() && alive@[a as int] && !stack@.contains(a)
                        && #[trigger] self.refers(a, b) implies alive@[b as int] by {
                    if a == node {
                        let j = choose|j: int| 0 <= j < refs@.len() && refs@[j] == b;
                        assert(alive@[refs@[j] as int]);
                    }
                }
            }
        }
        proof {
            assert(self.closed(alive@)) by {
                assert forall|a: u32, b: u32|
                    a < self.size() && alive@[a as int] && #[trigger] self.refers(
                        a,
                        b,
                    ) implies alive@[b as int] by {
                    assert(!stack@.contains(a));
                }
            }
            assert forall|node: u32| node < self.size() implies (#[trigger] alive@[node as int]
                <==> self.live(roots@, node)) by {
                if self.live(roots@, node) {
                    self.lemma_closed_holds_live(alive@, roots@, node);
                }
            }
        }
        alive
    }
}

/// How many entries of `marks` are false.
pub open spec fn unmarked(marks: Seq<bool>) -> nat
    decreases marks.len(),
{
    if marks.len() == 0 {
        0
    } else {
        unmarked(marks.drop_last()) + if marks.last() {
            0nat
        } else {
            1nat
        }
    }
}

proof fn lemma_mark(marks: Seq<bool>, i: int)
    requires
        0 <= i < marks.len(),
        !marks[i],
    ensures
        unmarked(marks.update(i, true)) + 1 == unmarked(marks),
    decreases marks.len(),
{
    let after = marks.update(i, true);
    if i == marks.len() - 1 {
        assert(after.drop_last() =~= marks.drop_last());
    } else {
        lemma_mark(marks.drop_last(), i);
        assert(after.drop_last() =~= marks.drop_last().update(i, true));
    }
}

/// The targets of the edges that leave `node`, in the order of `edges`.
pub open spec fn targets_of(edges: Seq<(u32, u32)>, node: u32) -> Seq<u32>
    decreases edges.len(),
{
    if edges.len() == 0 {
        Seq::empty()
    } else {
        let rest = targets_of(edges.drop_last(), node);
        if edges.last().0 == node {
            rest.push(edges.last().1)
        } else {
            rest
        }
    }
}

/// True when both ends of every edge are nodes of a graph with `n` nodes.
pub open spec fn edges_below(edges: Seq<(u32, u32)>, n: int) -> bool {
    forall|i: int| 0 <= i < edges.len() ==> (#[trigger] edges[i]).0 < n && edges[i].1 < n
}

/// How many edges leave a node below `node`: the row offset of `node`.
spec fn offset_of(edges: Seq<(u32, u32)>, node: int) -> int
    decreases node,
{
    if node <= 0 {
        0
    } else {
        offset_of(edges, node - 1) + targets_of(edges, (node - 1) as u32).len()
    }
}

proof fn lemma_offset_push(edges: Seq<(u32, u32)>, e: (u32, u32), node: int)
    requires
        0 <= node <= u32::MAX,
    ensures
        offset_of(edges.push(e), node) == offset_of(edges, node) + if e.0 < node {
            1int
        } else {
            0int
        },
    decreases node,
{
    if node > 0 {
        lemma_offset_push(edges, e, node - 1);
        assert(edges.push(e).drop_last() =~= edges);
        assert(targets_of(edges.push(e), (node - 1) as u32).len() == targets_of(
            edges,
            (node - 1) as u32,
        ).len() + if e.0 == (node - 1) as u32 {
            1int
        } else {
            0int
        });
    }
}

proof fn lemma_offset_total(edges: Seq<(u32, u32)>, n: int)
    requires
        0 <= n <= u32::MAX,
        edges_below(edges, n),
    ensures
        offset_of(edges, n) == edges.len(),
    decreases edges.len(),
{
    if edges.len() == 0 {
        lemma_offset_empty(edges, n);
    } else {
        assert(edges_below(edges.drop_last(), n));
        lemma_offset_total(edges.drop_last(), n);
        lemma_offset_push(edges.drop_last(), edges.last(), n);
        assert(edges.drop_last().push(edges.last()) =~= edges);
    }
}

proof fn lemma_offset_empty(edges: Seq<(u32, u32)>, n: int)
    requires
        edges.len() == 0,
        0 <= n,
    ensures
        offset_of(edges, n) == 0,
    decreases n,
{
    if n > 0 {
        lemma_offset_empty(edges, n - 1);
    }
}

proof fn lemma_offset_mono(edges: Seq<(u32, u32)>, a: int, b: int)
    requires
        0 <= a <= b <= u32::MAX,
    ensures
        offset_of(edges, a) <= offset_of(edges, b),
        a < b ==> offset_of(edges, a) + targets_of(edges, a as u32).len() <= offset_of(edges, b),
        0 <= offset_of(edges, a),
    decreases b,
{
    if a < b {
        lemma_offset_mono(edges, a, b - 1);
    } else if a > 0 {
        lemma_offset_mono(edges, a - 1, a - 1);
    }
}

/// Dropping edges from the end leaves a prefix of every row.
proof fn lemma_targets_take(edges: Seq<(u32, u32)>, k: int, node: u32)
    requires
        0 <= k <= edges.len(),
    ensures
        targets_of(edges.take(k), node).len() <= targets_of(edges, node).len(),
    decreases edges.len() - k,
{
    if k < edges.len() {
        lemma_targets_take(edges, k + 1, node);
        assert(edges.take(k + 1).drop_last() =~= edges.take(k));
    } else {
        assert(edges.take(k) =~= edges);
    }
}

/// A node is in a row exactly when there is an edge to it.
pub proof fn lemma_targets_contain(edges: Seq<(u32, u32)>, a: u32, b: u32)
    ensures
        targets_of(edges, a).contains(b) <==> edges.contains((a, b)),
    decreases edges.len(),
{
    if edges.len() > 0 {
        let init = edges.drop_last();
        let last = edges.last();
        lemma_targets_contain(init, a, b);
        let row = targets_of(init, a);
        if targets_of(edges, a).contains(b) {
            let j = choose|j: int|
                0 <= j < targets_of(edges, a).len() && targets_of(edges, a)[j] == b;
            if j < row.len() {
                assert(row[j] == b);
                let i = choose|i: int| 0 <= i < init.len() && init[i] == (a, b);
                assert(edges[i] == (a, b));
            } else {
                assert(edges[edges.len() - 1] == (a, b));
            }
        }
        if edges.contains((a, b)) {
            let i = choose|i: int| 0 <= i < edges.len() && edges[i] == (a, b);
            if i < edges.len() - 1 {
                assert(init[i] == (a, b));
                let j = choose|j: int| 0 <= j < row.len() && row[j] == b;
                assert(targets_of(edges, a)[j] == b);
            } else {
                assert(targets_of(edges, a)[row.len() as int] == b);
            }
        }
    }
}

/// Row offsets of `edges` in a graph with `n` nodes.
fn row_offsets(n: usize, edges: &[(u32, u32)]) -> (offsets: Vec<u32>)
    requires
        n <= u32::MAX,
        n < usize::MAX,
        edges@.len() <= u32::MAX,
        edges_below(edges@, n as int),
    ensures
        offsets@.len() == n + 1,
        forall|i: int| 0 <= i <= n ==> #[trigger] offsets@[i] == offset_of(edges@, i),
{
    let mut offsets: Vec<u32> = vec![0; n + 1];
    let mut k: usize = 0;
    while k < edges.len()
        invariant
            n <= u32::MAX,
            edges@.len() <= u32::MAX,
            edges_below(edges@, n as int),
            k <= edges@.len(),
            offsets@.len() == n + 1,
            offsets@[0] == 0,
            forall|i: int|
                0 <= i < n ==> #[trigger] offsets@[i + 1] == targets_of(
                    edges@.take(k as int),
                    i as u32,
                ).len(),
            forall|i: int| 0 <= i <= n ==> #[trigger] offsets@[i] <= k,
        decreases edges@.len() - k,
    {
        let from: u32 = edges[k].0;
        let ghost before = offsets@;
        let at: usize = from as usize + 1;
        offsets[at] = offsets[at] + 1;
        proof {
            assert(edges@.take(k + 1).drop_last() =~= edges@.take(k as int));
            assert forall|i: int| 0 <= i < n implies #[trigger] offsets@[i + 1] == targets_of(
                edges@.take(k + 1),
                i as u32,
            ).len() by {
                assert(before[i + 1] == targets_of(edges@.take(k as int), i as u32).len());
            }
        }
        k += 1;
    }
    assert(edges@.take(k as int) =~= edges@);
    let mut i: usize = 0;
    while i < n
        invariant
            n <= u32::MAX,
            edges@.len() <= u32::MAX,
            edges_below(edges@, n as int),
            i <= n,
            offsets@.len() == n + 1,
            forall|j: int| 0 <= j <= i ==> #[trigger] offsets@[j] == offset_of(edges@, j),
            forall|j: int|
                i <= j < n ==> #[trigger] offsets@[j + 1] == targets_of(edges@, j as u32).len(),
        decreases n - i,
    {
        proof {
            lemma_offset_total(edges@, n as int);
            lemma_offset_mono(edges@, i as int, i as int);
            lemma_offset_mono(edges@, i + 1, n as int);
        }
        let ghost before = offsets@;
        assert(before[i as int + 1] == targets_of(edges@, i as u32).len());
        offsets[i + 1] = offsets[i + 1] + offsets[i];
        proof {
            assert forall|j: int| i + 1 <= j < n implies #[trigger] offsets@[j + 1] == targets_of(
                edges@,
                j as u32,
            ).len() by {
                assert(before[j + 1] == targets_of(edges@, j as u32).len());
            }
        }
        i += 1;
    }
    offsets
}

/// The rows themselves, laid out by `offsets`.
fn row_targets(n: usize, edges: &[(u32, u32)], offsets: &Vec<u32>) -> (targets: Vec<u32>)
    requires
        n <= u32::MAX,
        edges@.len() <= u32::MAX,
        edges_below(edges@, n as int),
        offsets@.len() == n + 1,
        forall|i: int| 0 <= i <= n ==> #[trigger] offsets@[i] == offset_of(edges@, i),
    ensures
        targets@.len() == edges@.len(),
        forall|node: u32|
            node < n ==> #[trigger] targets_of(edges@, node) == targets@.subrange(
                offsets@[node as int] as int,
                offsets@[node as int + 1] as int,
            ),
{
    let mut targets: Vec<u32> = vec![0; edges.len()];
    let mut cursor: Vec<u32> = offsets.clone();
    let mut k: usize = 0;
    proof {
        assert(edges@.take(0) =~= Seq::empty());
        assert(cursor@ =~= offsets@);
    }
    while k < edges.len()
        invariant
            n <= u32::MAX,
            edges@.len() <= u32::MAX,
            edges_below(edges@, n as int),
            k <= edges@.len(),
            targets@.len() == edges@.len(),
            cursor@.len() == n + 1,
            forall|node: int|
                0 <= node < n ==> #[trigger] cursor@[node] == offset_of(edges@, node) + targets_of(
                    edges@.take(k as int),
                    node as u32,
                ).len(),
            forall|node: int, j: int|
                0 <= node < n && 0 <= j < targets_of(edges@.take(k as int), node as u32).len()
                    ==> targets@[offset_of(edges@, node) + j] == #[trigger] targets_of(
                    edges@.take(k as int),
                    node as u32,
                )[j],
        decreases edges@.len() - k,
    {
        let from: u32 = edges[k].0;
        let to: u32 = edges[k].1;
        let ghost done = edges@.take(k as int);
        let ghost next = edges@.take(k + 1);
        let ghost targets0 = targets@;
        let ghost cursor0 = cursor@;
        let pos: u32 = cursor[from as usize];
        proof {
            assert(next.drop_last() =~= done);
            assert(pos == offset_of(edges@, from as int) + targets_of(done, from).len());
            lemma_targets_take(edges@, k + 1, from);
            lemma_offset_mono(edges@, from as int, n as int);
            lemma_offset_total(edges@, n as int);
        }
        targets[pos as usize] = to;
        cursor[from as usize] = pos + 1;
        proof {
            assert forall|node: int| 0 <= node < n implies #[trigger] cursor@[node] == offset_of(
                edges@,
                node,
            ) + targets_of(next, node as u32).len() by {
                assert(cursor0[node] == offset_of(edges@, node) + targets_of(
                    done,
                    node as u32,
                ).len());
            }
            assert forall|node: int, j: int|
                0 <= node < n && 0 <= j < targets_of(next, node as u32).len() implies targets@[
            offset_of(edges@, node) + j] == #[trigger] targets_of(next, node as u32)[j] by {
                let row = targets_of(done, node as u32);
                lemma_targets_take(edges@, k + 1, node as u32);
                lemma_offset_mono(edges@, node, n as int);
                if node < from {
                    lemma_offset_mono(edges@, node, from as int);
                }
                if from < node {
                    lemma_offset_mono(edges@, from as int, node);
                }
                if j < row.len() {
                    assert(targets0[offset_of(edges@, node) + j] == row[j]);
                }
            }
        }
        k += 1;
    }
    proof {
        assert(edges@.take(k as int) =~= edges@);
        assert forall|node: u32| node < n implies #[trigger] targets_of(edges@, node)
            == targets@.subrange(
            offsets@[node as int] as int,
            offsets@[node as int + 1] as int,
        ) by {
            lemma_offset_mono(edges@, node as int, node + 1);
            lemma_offset_mono(edges@, node + 1, n as int);
            lemma_offset_total(edges@, n as int);
            let row = targets@.subrange(
                offsets@[node as int] as int,
                offsets@[node as int + 1] as int,
            );
            assert(row.len() == targets_of(edges@, node).len());
            assert forall|j: int| 0 <= j < row.len() implies row[j] == targets_of(
                edges@,
                node,
            )[j] by {
                assert(targets@[offset_of(edges@, node as int) + j] == targets_of(
                    edges@,
                    (node as int) as u32,
                )[j]);
            }
            assert(row =~= targets_of(edges@, node));
        }
    }
    targets
}

proof fn lemma_targets_below(edges: Seq<(u32, u32)>, n: int, node: u32)
    requires
        edges_below(edges, n),
    ensures
        nodes_below(targets_of(edges, node), n),
    decreases edges.len(),
{
    if edges.len() > 0 {
        assert(edges_below(edges.drop_last(), n));
        lemma_targets_below(edges.drop_last(), n, node);
    }
}

impl StoreGraph {
    /// A graph without nodes.
    pub fn empty(store_prefix: String) -> (g: StoreGraph)
        ensures
            g.wf(),
            g.size() == 0,
            g.store_prefix@ == store_prefix@,
    {
        StoreGraph {
            paths: Vec::new(),
            nar_sizes: Vec::new(),
            registration_times: Vec::new(),
            ref_offsets: vec![0],
            ref_targets: Vec::new(),
            store_prefix,
        }
    }

    /// The graph over the given nodes in which every row holds the targets of
    /// the edges that leave its node, in the order of `edges`.
    pub fn from_edges(
        paths: Vec<String>,
        nar_sizes: Vec<u64>,
        registration_times: Vec<i64>,
        edges: &[(u32, u32)],
        store_prefix: String,
    ) -> (g: StoreGraph)
        requires
            paths@.len() <= u32::MAX,
            paths@.len() < usize::MAX,
            nar_sizes@.len() == paths@.len(),
            registration_times@.len() == paths@.len(),
            edges@.len() <= u32::MAX,
            edges_below(edges@, paths@.len() as int),
        ensures
            g.wf(),
            g.paths == paths,
            g.nar_sizes == nar_sizes,
            g.registration_times == registration_times,
            g.store_prefix == store_prefix,
            forall|node: u32|
                node < paths@.len() ==> #[trigger] g.refs_of(node) == targets_of(edges@, node),
            forall|a: u32, b: u32| #[trigger] g.refers(a, b) <==> edges@.contains((a, b)),
    {
        let n: usize = paths.len();
        let ref_offsets = row_offsets(n, edges);
        let ref_targets = row_targets(n, edges, &ref_offsets);
        let g = StoreGraph {
            paths,
            nar_sizes,
            registration_times,
            ref_offsets,
            ref_targets,
            store_prefix,
        };
        proof {
            lemma_offset_total(edges@, n as int);
            assert forall|i: int, j: int|
                0 <= i <= j < g.ref_offsets@.len() implies g.ref_offsets@[i]
                <= g.ref_offsets@[j] by {
                lemma_offset_mono(edges@, i, j);
            }
            assert forall|node: u32| node < n implies #[trigger] g.refs_of(node) == targets_of(
                edges@,
                node,
            ) by {}
            assert forall|k: int| 0 <= k < g.ref_targets@.len() implies #[trigger] g.ref_targets@[k]
                < n by {
                let node = lemma_row_of(edges@, n as int, k);
                lemma_targets_below(edges@, n as int, node);
                assert(g.refs_of(node)[k - offset_of(edges@, node as int)] == g.ref_targets@[k]);
            }
            assert forall|a: u32, b: u32| #[trigger] g.refers(a, b) <==> edges@.contains((a, b)) by {
                lemma_targets_contain(edges@, a, b);
                if edges@.contains((a, b)) {
                    let i = choose|i: int| 0 <= i < edges@.len() && edges@[i] == (a, b);
                    assert(edges@[i].0 < n);
                }
                if a < n {
                    assert(g.refs_of(a) == targets_of(edges@, a));
                }
            }
        }
        g
    }
}

/// Every position of the flat array lies in some row.
proof fn lemma_row_of(edges: Seq<(u32, u32)>, n: int, k: int) -> (node: u32)
    requires
        0 <= n <= u32::MAX,
        0 <= k < offset_of(edges, n),
    ensures
        node < n,
        offset_of(edges, node as int) <= k < offset_of(edges, node + 1),
    decreases n,
{
    if k < offset_of(edges, n - 1) {
        lemma_row_of(edges, n - 1, k)
    } else {
        (n - 1) as u32
    }
}

/// True when `i` is the last node whose path is `prefix` followed by `basename`.
pub open spec fn last_named(
    paths: Seq<String>,
    prefix: Seq<char>,
    basename: Seq<char>,
    i: int,
) -> bool {
    &&& 0 <= i < paths.len()
    &&& text::after_prefix(paths[i]@, prefix) == Some(basename)
    &&& forall|j: int|
        i < j < paths.len() ==> text::after_prefix((#[trigger] paths[j])@, prefix) != Some(basename)
}

/// True when no node's path is `prefix` followed by `basename`.
pub open spec fn none_named(paths: Seq<String>, prefix: Seq<char>, basename: Seq<char>) -> bool {
    forall|j: int|
        0 <= j < paths.len() ==> text::after_prefix((#[trigger] paths[j])@, prefix) != Some(basename)
}

/// Basename -> idx index for the lookups during root finding and the
/// unknown-on-disk scan.
pub struct BasenameIndex {
    pub map: StringHashMap<u32>,
    pub store_prefix: String,
}

impl BasenameIndex {
    /// True when the index holds exactly the nodes of a graph with these
    /// paths that lie below `prefix`, each under its basename.
    pub open spec fn indexes(&self, paths: Seq<String>, prefix: Seq<char>) -> bool {
        &&& self.store_prefix@ == prefix
        &&& forall|b: Seq<char>| #[trigger]
            self.map@.contains_key(b) ==> last_named(paths, prefix, b, self.map@[b] as int)
        &&& forall|b: Seq<char>|
            !(#[trigger] self.map@.contains_key(b)) ==> none_named(paths, prefix, b)
    }

    /// Index the nodes of `graph`.
    pub fn new(graph: &StoreGraph) -> (r: BasenameIndex)
        requires
            graph.wf(),
        ensures
            r.indexes(graph.paths@, graph.store_prefix@),
    {
        let mut map: StringHashMap<u32> = StringHashMap::new();
        let n: usize = graph.paths.len();
        let mut i: usize = 0;
        while i < n
            invariant
                graph.wf(),
                n == graph.paths@.len(),
                i <= n,
                forall|b: Seq<char>| #[trigger]
                    map@.contains_key(b) ==> last_named(
                        graph.paths@.take(i as int),
                        graph.store_prefix@,
                        b,
                        map@[b] as int,
                    ),
                forall|b: Seq<char>|
                    !(#[trigger] map@.contains_key(b)) ==> none_named(
                        graph.paths@.take(i as int),
                        graph.store_prefix@,
                        b,
                    ),
            decreases n - i,
        {
            let ghost done = graph.paths@.take(i as int);
            let ghost next = graph.paths@.take(i + 1);
            let ghost prefix = graph.store_prefix@;
            let ghost before = map@;
            let ghost path = graph.paths@[i as int]@;
            if let Some(b) = text::strip_prefix(graph.paths[i].as_str(), graph.store_prefix.as_str()) {
                map.insert(b, i as u32);
            }
            proof {
                assert forall|b: Seq<char>| #[trigger] map@.contains_key(b) implies last_named(
                    next,
                    prefix,
                    b,
                    map@[b] as int,
                ) by {
                    if text::after_prefix(path, prefix) == Some(b) {
                        assert(map@[b] == i);
                    } else {
                        assert(before.contains_key(b));
                        assert(last_named(done, prefix, b, before[b] as int));
                        assert(next[before[b] as int] == done[before[b] as int]);
                        assert forall|j: int|
                            before[b] < j < next.len() implies text::after_prefix(
                            (#[trigger] next[j])@,
                            prefix,
                        ) != Some(b) by {
                            if j < i {
                                assert(next[j] == done[j]);
                            }
                        }
                    }
                }
                assert forall|b: Seq<char>|
                    !(#[trigger] map@.contains_key(b)) implies none_named(next, prefix, b) by {
                    assert(!before.contains_key(b));
                    assert forall|j: int|
                        0 <= j < next.len() implies text::after_prefix((#[trigger] next[j])@, prefix)
                        != Some(b) by {
                        if j < i {
                            assert(next[j] == done[j]);
                        }
                    }
                }
            }
            i += 1;
        }
        proof {
            assert(graph.paths@.take(n as int) =~= graph.paths@);
        }
        BasenameIndex { map, store_prefix: graph.store_prefix.clone() }
    }

    /// The node with the full path `path`.
    pub fn idx_of(&self, path: &str) -> (r: Option<u32>)
        ensures
            r == match text::after_prefix(path@, self.store_prefix@) {
                Some(b) => if self.map@.contains_key(b) {
                    Some(self.map@[b])
                } else {
                    None
                },
                None => None,
            },
    {
        match text::strip_prefix(path, self.store_prefix.as_str()) {
            Some(b) => self.idx_of_basename(b.as_str()),
            None => None,
        }
    }

    /// The node with the basename `basename`.
    pub fn idx_of_basename(&self, basename: &str) -> (r: Option<u32>)
        ensures
            r == if self.map@.contains_key(basename@) {
                Some(self.map@[basename@])
            } else {
                None
            },
    {
        match self.map.get(basename) {
            Some(i) => Some(*i),
            None => None,
        }
    }

    /// True when the index is empty.
    pub fn is_empty(&self) -> (r: bool)
        ensures
            r == (forall|b: Seq<char>| !(#[trigger] self.map@.contains_key(b))),
    {
        let r = self.map.is_empty();
        proof {
            if r {
                assert(self.map@.dom() =~= Set::empty());
            }
        }
        r
    }

    /// Looking a node up by its full path gives a node with that path, and
    /// fails only where no node has that path.
    pub proof fn law_idx_of(&self, graph: StoreGraph, path: Seq<char>)
        requires
            graph.wf(),
            self.indexes(graph.paths@, graph.store_prefix@),
            text::starts_with(path, graph.store_prefix@),
        ensures
            ({
                let b = text::after_prefix(path, self.store_prefix@)->0;
                if self.map@.contains_key(b) {
                    let i = self.map@[b] as int;
                    0 <= i < graph.size() && graph.paths@[i]@ == path
                } else {
                    forall|i: int| 0 <= i < graph.size() ==> (#[trigger] graph.paths@[i])@ != path
                }
            }),
    {
        let prefix = graph.store_prefix@;
        let b = text::after_prefix(path, prefix)->0;
        if self.map@.contains_key(b) {
            let i = self.map@[b] as int;
            assert(last_named(graph.paths@, prefix, b, i));
            lemma_prefix_joins(graph.paths@[i]@, prefix, b);
            lemma_prefix_joins(path, prefix, b);
        } else {
            assert(none_named(graph.paths@, prefix, b));
        }
    }
}

/// A text is its prefix followed by what follows the prefix.
pub proof fn lemma_prefix_joins(s: Seq<char>, prefix: Seq<char>, rest: Seq<char>)
    ensures
        text::after_prefix(s, prefix) == Some(rest) <==> s == prefix + rest,
{
    if text::after_prefix(s, prefix) == Some(rest) {
        assert(s =~= prefix + rest);
    }
    if s == prefix + rest {
        assert(s.subrange(0, prefix.len() as int) =~= prefix);
        assert(s.subrange(prefix.len() as int, s.len() as int) =~= rest);
    }
}

impl StoreGraph {
    /// The nodes reachable from `root`, each once. The cost is that of the
    /// closure, not of the graph.
    pub fn closure_of(&self, root: u32) -> (nodes: Vec<u32>)
        requires
            self.wf(),
            root < self.size(),
        ensures
            nodes@.no_duplicates(),
            nodes_below(nodes@, self.size()),
            forall|m: u32| #[trigger] nodes@.contains(m) <==> self.reaches(root, m),
    {
        broadcast use vstd::std_specs::hash::group_hash_axioms;

        let mut nodes: Vec<u32> = Vec::new();
        let mut seen: HashSet<u32> = HashSet::new();
        let mut stack: Vec<u32> = vec![root];
        let ghost all = Set::new(|m: u32| m < self.size());
        proof {
            lemma_nodes_finite(self.size());
            self.lemma_reaches_self(root);
            assert(stack@ =~= seq![root]);
            assert(stack@[0] == root);
        }
        while stack.len() > 0
            invariant
                self.wf(),
                root < self.size(),
                nodes_below(stack@, self.size()),
                nodes_below(nodes@, self.size()),
                nodes@.no_duplicates(),
                all == Set::new(|m: u32| m < self.size()),
                all.finite(),
                seen@.finite(),
                seen@.subset_of(all),
                forall|m: u32| #[trigger] nodes@.contains(m) <==> seen@.contains(m),
                forall|k: int| 0 <= k < stack@.len() ==> self.reaches(root, #[trigger] stack@[k]),
                forall|m: u32| #[trigger] seen@.contains(m) ==> self.reaches(root, m),
                seen@.contains(root) || stack@.contains(root),
                forall|a: u32, b: u32|
                    seen@.contains(a) && #[trigger] self.refers(a, b) ==> seen@.contains(b)
                        || stack@.contains(b),
            decreases all.len() - seen@.len(), stack@.len(),
        {
            let ghost stack0 = stack@;
            let ghost seen0 = seen@;
            let ghost nodes0 = nodes@;
            proof {
                vstd::set_lib::lemma_len_subset(seen@, all);
            }
            let node: u32 = match stack.pop() {
                Some(node) => node,
                None => root,
            };
            proof {
                assert(node == stack0[stack0.len() - 1]);
                assert forall|m: u32| #[trigger] stack0.contains(m) implies m == node
                    || stack@.contains(m) by {
                    let k = choose|k: int| 0 <= k < stack0.len() && stack0[k] == m;
                    if k < stack0.len() - 1 {
                        assert(stack@[k] == m);
                    }
                }
            }
            if seen.insert(node) {
                let ghost popped = stack@;
                nodes.push(node);
                let refs = self.refs(node);
                stack.extend_from_slice(refs);
                proof {
                    assert(stack@ =~= popped + refs@);
                    vstd::set_lib::lemma_len_subset(seen@, all);
                    assert forall|m: u32| #[trigger] nodes@.contains(m) <==> seen@.contains(m) by {
                        if m == node {
                            assert(nodes@[nodes0.len() as int] == node);
                        } else if nodes0.contains(m) {
                            let k = choose|k: int| 0 <= k < nodes0.len() && nodes0[k] == m;
                            assert(nodes@[k] == m);
                        } else if nodes@.contains(m) {
                            let k = choose|k: int| 0 <= k < nodes@.len() && nodes@[k] == m;
                            assert(nodes0[k] == m);
                        }
                    }
                    assert(nodes@.no_duplicates()) by {
                        assert(!nodes0.contains(node));
                    }
                    assert forall|k: int| 0 <= k < stack@.len() implies self.reaches(
                        root,
                        #[trigger] stack@[k],
                    ) && stack@[k] < self.size() by {
                        if k < popped.len() {
                            assert(stack@[k] == stack0[k]);
                        } else {
                            let b = refs@[k - popped.len()];
                            assert(self.refers(node, b));
                            self.lemma_reaches_step(root, node, b);
                        }
                    }
                    assert forall|m: u32| popped.contains(m) implies #[trigger] stack@.contains(
                        m,
                    ) by {
                        let k = choose|k: int| 0 <= k < popped.len() && popped[k] == m;
                        assert(stack@[k] == m);
                    }
                    assert forall|a: u32, b: u32|
                        seen@.contains(a) && #[trigger] self.refers(a, b) implies seen@.contains(b)
                        || stack@.contains(b) by {
                        if a == node {
                            let k = choose|k: int| 0 <= k < refs@.len() && refs@[k] == b;
                            assert(stack@[popped.len() + k] == b);
                        } else {
                            assert(seen0.contains(a));
                            assert(seen0.contains(b) || stack0.contains(b));
                        }
                    }
                }
            } else {
                proof {
                    assert(seen@ =~= seen0);
                }
            }
        }
        proof {
            assert forall|m: u32| #[trigger] nodes@.contains(m) <==> self.reaches(root, m) by {
                if self.reaches(root, m) {
                    let marked = Seq::new(self.size() as nat, |i: int| seen@.contains(i as u32));
                    assert(self.closed(marked)) by {
                        assert forall|a: u32, b: u32|
                            a < self.size() && marked[a as int] && #[trigger] self.refers(
                                a,
                                b,
                            ) implies marked[b as int] by {
                            assert(seen@.contains(b) || stack@.contains(b));
                        }
                    }
                    let roots = seq![root];
                    assert(roots.contains(roots[0]));
                    assert(self.live(roots, m));
                    self.lemma_closed_holds_live(marked, roots, m);
                    self.lemma_reaches_below(root, m);
                }
            }
        }
        nodes
    }

    /// Whatever is referenced is a node.
    pub proof fn lemma_refers_below(&self, a: u32, b: u32)
        requires
            self.wf(),
            self.refers(a, b),
        ensures
            b < self.size(),
    {
        let start = self.ref_offsets@[a as int] as int;
        let row = self.refs_of(a);
        let k = choose|k: int| 0 <= k < row.len() && row[k] == b;
        assert(self.ref_offsets@[a as int] <= self.ref_offsets@[a as int + 1]);
        assert(self.ref_offsets@[a as int + 1] <= self.ref_offsets@[self.size()]);
        assert(self.ref_targets@[start + k] == b);
    }

    /// Whatever is reached is a node.
    pub proof fn lemma_reaches_below(&self, a: u32, b: u32)
        requires
            self.reaches(a, b),
        ensures
            a < self.size(),
            b < self.size(),
    {
        let walk = choose|walk: Seq<u32>| #[trigger]
            self.is_walk(walk) && walk[0] == a && walk[walk.len() - 1] == b;
        assert(walk[0] < self.size());
        assert(walk[walk.len() - 1] < self.size());
    }
}

proof fn lemma_nodes_finite(n: int)
    requires
        0 <= n <= u32::MAX,
    ensures
        Set::new(|m: u32| m < n).finite(),
{
    let ints = vstd::set_lib::set_int_range(0, n);
    vstd::set_lib::lemma_int_range(0, n);
    let mapped = ints.map(|i: int| i as u32);
    ints.lemma_map_finite(|i: int| i as u32);
    assert(Set::new(|m: u32| m < n) =~= mapped) by {
        assert forall|m: u32| m < n implies #[trigger] mapped.contains(m) by {
            assert(ints.contains(m as int));
            assert((m as int) as u32 == m);
        }
    }
}

/// The references of a node are the edges that leave it, in order and as often
/// as they occur.
pub proof fn law_references_are_the_edges(edges: Seq<(u32, u32)>, node: u32)
    ensures
        targets_of(edges, node) == edges.filter(|e: (u32, u32)| e.0 == node).map_values(
            |e: (u32, u32)| e.1,
        ),
    decreases edges.len(),
{
    reveal(Seq::filter);
    let leaves = |e: (u32, u32)| e.0 == node;
    let target = |e: (u32, u32)| e.1;
    if edges.len() > 0 {
        law_references_are_the_edges(edges.drop_last(), node);
        let rest = edges.drop_last().filter(leaves);
        if edges.last().0 == node {
            assert(rest.push(edges.last()).map_values(target) =~= rest.map_values(target).push(
                edges.last().1,
            ));
        }
    }
    assert(targets_of(edges, node) =~= edges.filter(leaves).map_values(target));
}

/// Every path below the prefix is found under what follows the prefix: the
/// index leads to a node with that very path, and to the last one. Nothing else
/// is found.
pub proof fn law_index_finds_every_path(
    idx: BasenameIndex,
    paths: Seq<String>,
    prefix: Seq<char>,
    base: Seq<char>,
    i: int,
)
    requires
        idx.indexes(paths, prefix),
    ensures
        0 <= i < paths.len() && paths[i]@ == prefix + base ==> {
            &&& idx.map@.contains_key(base)
            &&& i <= idx.map@[base] < paths.len()
            &&& paths[idx.map@[base] as int]@ == prefix + base
        },
        idx.map@.contains_key(base) ==> idx.map@[base] < paths.len() && paths[idx.map@[base] as int]@
            == prefix + base,
{
    if 0 <= i < paths.len() && paths[i]@ == prefix + base {
        lemma_prefix_joins(paths[i]@, prefix, base);
        if !idx.map@.contains_key(base) {
            assert(none_named(paths, prefix, base));
        }
    }
    if idx.map@.contains_key(base) {
        let m = idx.map@[base] as int;
        assert(last_named(paths, prefix, base, m));
        lemma_prefix_joins(paths[m]@, prefix, base);
    }
}

/// A node reaches itself and what a node that it reaches references, and
/// nothing else.
pub proof fn law_reaching_goes_along_references(g: StoreGraph, a: u32, b: u32)
    requires
        a < g.size(),
        b < g.size(),
    ensures
        g.reaches(a, b) <==> a == b || exists|c: u32| g.reaches(a, c) && #[trigger] g.refers(c, b),
{
    g.lemma_reaches_self(a);
    if g.reaches(a, b) && a != b {
        let walk = choose|walk: Seq<u32>| #[trigger]
            g.is_walk(walk) && walk[0] == a && walk[walk.len() - 1] == b;
        let init = walk.drop_last();
        let c = init.last();
        assert forall|i: int| 0 <= i < init.len() implies #[trigger] init[i] < g.size() by {
            assert(init[i] == walk[i]);
        }
        assert forall|i: int| 0 <= i < init.len() - 1 implies g.refers(
            #[trigger] init[i],
            init[i + 1],
        ) by {
            assert(g.refers(walk[i], walk[i + 1]));
        }
        assert(g.is_walk(init));
        assert(g.reaches(a, c));
        assert(g.refers(walk[walk.len() - 2], walk[walk.len() - 2 + 1]));
        assert(g.refers(c, b));
    }
    if exists|c: u32| g.reaches(a, c) && #[trigger] g.refers(c, b) {
        let c = choose|c: u32| g.reaches(a, c) && #[trigger] g.refers(c, b);
        g.lemma_reaches_step(a, c, b);
    }
}

} // verus!
