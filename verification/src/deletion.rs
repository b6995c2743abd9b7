//! Referrer-first deletion order over the dead part of the graph.
use crate::graph::StoreGraph;
use vstd::prelude::*;

verus! {

/// True when `m` is a node that is not alive.
pub open spec fn dead(alive: Seq<bool>, m: u32) -> bool {
    m < alive.len() && !alive[m as int]
}

/// True when the dead node `r` references the dead node `m`, another one.
pub open spec fn dead_edge(g: StoreGraph, alive: Seq<bool>, r: u32, m: u32) -> bool {
    r != m && dead(alive, r) && dead(alive, m) && g.refers(r, m)
}

/// When and by whom the node at position `j` of `order` was released for
/// deletion. A node without dead referrers has the key `(-1, node)`. Any other
/// node has the position of the last of its referrers and the place of its
/// last occurrence in that referrer's row.
pub open spec fn release_key(
    g: StoreGraph,
    alive: Seq<bool>,
    order: Seq<u32>,
    j: int,
    key: (int, int),
) -> bool {
    let m = order[j];
    if key.0 < 0 {
        key == (-1int, m as int) && forall|r: u32| !(#[trigger] dead_edge(g, alive, r, m))
    } else {
        let last = order[key.0];
        let row = g.refs_of(last);
        &&& key.0 < j
        &&& dead_edge(g, alive, last, m)
        &&& 0 <= key.1 < row.len()
        &&& row[key.1] == m
        &&& forall|k: int| key.1 < k < row.len() ==> #[trigger] row[k] != m
        &&& forall|r: u32| #[trigger]
            dead_edge(g, alive, r, m) ==> order.take(key.0 + 1).contains(r)
    }
}

/// Lexicographic order on release keys.
pub open spec fn key_less(a: (int, int), b: (int, int)) -> bool {
    a.0 < b.0 || (a.0 == b.0 && a.1 < b.1)
}

/// The first `acyclic` nodes of `order` stand in the order of their release.
pub open spec fn in_release_order(
    g: StoreGraph,
    alive: Seq<bool>,
    order: Seq<u32>,
    acyclic: int,
    keys: Seq<(int, int)>,
) -> bool {
    &&& keys.len() == acyclic
    &&& forall|j: int| 0 <= j < acyclic ==> release_key(g, alive, order, j, #[trigger] keys[j])
    &&& forall|i: int, j: int|
        0 <= i < j < acyclic ==> key_less(#[trigger] keys[i], #[trigger] keys[j])
}

/// `order` holds every dead node once. Its first `acyclic` nodes come in the
/// order in which they are released: a node is released once all its dead
/// referrers have been passed. The nodes that are never released, those on
/// cycles and below them, follow in ascending order.
pub open spec fn is_deletion_order(
    g: StoreGraph,
    alive: Seq<bool>,
    order: Seq<u32>,
    acyclic: int,
) -> bool {
    &&& 0 <= acyclic <= order.len()
    &&& order.no_duplicates()
    &&& forall|m: u32| #[trigger] order.contains(m) <==> dead(alive, m)
    &&& exists|keys: Seq<(int, int)>| in_release_order(g, alive, order, acyclic, keys)
    &&& forall|i: int, j: int|
        acyclic <= i < j < order.len() ==> #[trigger] order[i] < #[trigger] order[j]
    &&& forall|i: int|
        acyclic <= i < order.len() ==> #[trigger] held_back(g, alive, order, acyclic, i)
}

/// The node at position `i` has a dead referrer among those after `acyclic`.
pub open spec fn held_back(
    g: StoreGraph,
    alive: Seq<bool>,
    order: Seq<u32>,
    acyclic: int,
    i: int,
) -> bool {
    exists|j: int|
        acyclic <= j < order.len() && #[trigger] dead_edge(g, alive, order[j], order[i])
}

/// How often `m` occurs in `s` from `a` up to `b`.
spec fn occ(s: Seq<u32>, a: int, b: int, m: u32) -> int
    decreases b - a,
{
    if a >= b {
        0
    } else {
        occ(s, a, b - 1, m) + if s[b - 1] == m {
            1int
        } else {
            0int
        }
    }
}

proof fn lemma_occ(s: Seq<u32>, a: int, b: int, m: u32)
    ensures
        0 <= occ(s, a, b, m),
        a <= b ==> occ(s, a, b, m) <= b - a,
        occ(s, a, b, m) == 0 <==> forall|k: int| a <= k < b ==> #[trigger] s[k] != m,
        a < b ==> occ(s, a, b, m) == occ(s, a + 1, b, m) + if s[a] == m {
            1int
        } else {
            0int
        },
    decreases b - a,
{
    if a < b {
        lemma_occ(s, a, b - 1, m);
        if a + 1 == b {
            assert(occ(s, a, b - 1, m) == 0);
            assert(occ(s, a + 1, b, m) == 0);
        }
    }
}

/// References to `m` that come from dead nodes below `upto` outside `done`.
spec fn pending(g: StoreGraph, alive: Seq<bool>, done: Set<u32>, m: u32, upto: int) -> int
    decreases upto,
{
    if upto <= 0 {
        0
    } else {
        let r = (upto - 1) as u32;
        pending(g, alive, done, m, upto - 1) + if dead(alive, r) && r != m && !done.contains(r) {
            occ(g.refs_of(r), 0, g.refs_of(r).len() as int, m)
        } else {
            0int
        }
    }
}

proof fn lemma_pending_bounds(
    g: StoreGraph,
    alive: Seq<bool>,
    done: Set<u32>,
    m: u32,
    upto: int,
)
    requires
        g.wf(),
        0 <= upto <= g.size(),
    ensures
        0 <= pending(g, alive, done, m, upto) <= g.ref_offsets@[upto],
    decreases upto,
{
    if upto > 0 {
        lemma_pending_bounds(g, alive, done, m, upto - 1);
        let r = (upto - 1) as u32;
        lemma_occ(g.refs_of(r), 0, g.refs_of(r).len() as int, m);
    }
}

proof fn lemma_pending_insert(
    g: StoreGraph,
    alive: Seq<bool>,
    done: Set<u32>,
    node: u32,
    m: u32,
    upto: int,
)
    requires
        g.wf(),
        0 <= upto <= g.size(),
        dead(alive, node),
        !done.contains(node),
    ensures
        pending(g, alive, done, m, upto) == pending(g, alive, done.insert(node), m, upto) + if node
            < upto && node != m {
            occ(g.refs_of(node), 0, g.refs_of(node).len() as int, m)
        } else {
            0int
        },
    decreases upto,
{
    if upto > 0 {
        lemma_pending_insert(g, alive, done, node, m, upto - 1);
    }
}

proof fn lemma_pending_zero(g: StoreGraph, alive: Seq<bool>, done: Set<u32>, m: u32, upto: int)
    requires
        g.wf(),
        0 <= upto <= g.size(),
        alive.len() == g.size(),
        dead(alive, m),
    ensures
        pending(g, alive, done, m, upto) == 0 <==> forall|r: u32|
            r < upto && #[trigger] dead_edge(g, alive, r, m) ==> done.contains(r),
    decreases upto,
{
    if upto > 0 {
        let r0 = (upto - 1) as u32;
        let row = g.refs_of(r0);
        lemma_pending_zero(g, alive, done, m, upto - 1);
        lemma_pending_bounds(g, alive, done, m, upto - 1);
        lemma_occ(row, 0, row.len() as int, m);
        if g.refers(r0, m) {
            let k = choose|k: int| 0 <= k < row.len() && row[k] == m;
            assert(row[k] == m);
        } else {
            assert forall|k: int| 0 <= k < row.len() implies #[trigger] row[k] != m by {
                if row[k] == m {
                    assert(row.contains(m));
                }
            }
        }
        if pending(g, alive, done, m, upto) == 0 {
            assert forall|r: u32|
                r < upto && #[trigger] dead_edge(g, alive, r, m) implies done.contains(r) by {}
        } else {
            if forall|r: u32|
                r < upto && #[trigger] dead_edge(g, alive, r, m) ==> done.contains(r) {
                assert(pending(g, alive, done, m, upto - 1) == 0);
                assert(dead_edge(g, alive, r0, m));
                assert(false);
            }
        }
    }
}

/// For every dead node, how many references it has from other dead nodes.
fn in_degrees(g: &StoreGraph, alive: &[bool]) -> (in_degree: Vec<u32>)
    requires
        g.wf(),
        alive@.len() == g.size(),
    ensures
        in_degree@.len() == g.size(),
        forall|m: u32|
            dead(alive@, m) ==> #[trigger] in_degree@[m as int] == pending(
                *g,
                alive@,
                Set::empty(),
                m,
                g.size(),
            ),
{
    let n: usize = g.len();
    let mut in_degree: Vec<u32> = vec![0; n];
    let mut i: usize = 0;
    while i < n
        invariant
            g.wf(),
            alive@.len() == g.size(),
            n == g.size(),
            i <= n,
            in_degree@.len() == n,
            forall|m: u32|
                dead(alive@, m) ==> #[trigger] in_degree@[m as int] == pending(
                    *g,
                    alive@,
                    Set::empty(),
                    m,
                    i as int,
                ),
        decreases n - i,
    {
        if !alive[i] {
            let node: u32 = i as u32;
            let refs = g.refs(node);
            let mut k: usize = 0;
            while k < refs.len()
                invariant
                    g.wf(),
                    alive@.len() == g.size(),
                    n == g.size(),
                    i < n,
                    node == i,
                    !alive@[i as int],
                    refs@ == g.refs_of(node),
                    crate::graph::nodes_below(refs@, g.size()),
                    k <= refs@.len(),
                    in_degree@.len() == n,
                    forall|m: u32|
                        dead(alive@, m) ==> #[trigger] in_degree@[m as int] == pending(
                            *g,
                            alive@,
                            Set::empty(),
                            m,
                            i as int,
                        ) + if m != node {
                            occ(refs@, 0, k as int, m)
                        } else {
                            0int
                        },
                decreases refs@.len() - k,
            {
                let m: u32 = refs[k];
                if m != node && !alive[m as usize] {
                    proof {
                        lemma_pending_bounds(*g, alive@, Set::empty(), m, i as int);
                        lemma_occ(refs@, 0, k as int, m);
                        assert(dead(alive@, m));
                        assert(g.ref_offsets@[i as int + 1] <= g.ref_offsets@[g.size()]);
                    }
                    in_degree[m as usize] = in_degree[m as usize] + 1;
                }
                k += 1;
            }
            proof {
                assert forall|m: u32| dead(alive@, m) implies #[trigger] in_degree@[m as int]
                    == pending(*g, alive@, Set::empty(), m, i as int + 1) by {
                    assert((i as int + 1 - 1) as u32 == node);
                }
            }
        }
        i += 1;
    }
    in_degree
}

/// The dead nodes in ascending order.
pub fn dead_indices(alive: &[bool]) -> (r: Vec<u32>)
    requires
        alive@.len() <= u32::MAX,
    ensures
        forall|i: int, j: int| 0 <= i < j < r@.len() ==> #[trigger] r@[i] < #[trigger] r@[j],
        forall|m: u32| #[trigger] r@.contains(m) <==> dead(alive@, m),
{
    let n: usize = alive.len();
    let mut r: Vec<u32> = Vec::new();
    let mut i: usize = 0;
    while i < n
        invariant
            n == alive@.len(),
            n <= u32::MAX,
            i <= n,
            forall|a: int, b: int| 0 <= a < b < r@.len() ==> #[trigger] r@[a] < #[trigger] r@[b],
            forall|a: int| 0 <= a < r@.len() ==> #[trigger] r@[a] < i,
            forall|m: u32| #[trigger] r@.contains(m) <==> dead(alive@, m) && m < i,
        decreases n - i,
    {
        let ghost before = r@;
        if !alive[i] {
            r.push(i as u32);
        }
        proof {
            assert forall|m: u32| #[trigger] r@.contains(m) <==> dead(alive@, m) && m < i + 1 by {
                lemma_grown(before, r@, i as u32, m);
            }
        }
        i += 1;
    }
    r
}

proof fn lemma_grown(before: Seq<u32>, after: Seq<u32>, x: u32, m: u32)
    requires
        after == before || after == before.push(x),
    ensures
        after == before.push(x) ==> (after.contains(m) <==> before.contains(m) || m == x),
{
    if after == before.push(x) {
        if before.contains(m) {
            let j = choose|j: int| 0 <= j < before.len() && before[j] == m;
            assert(after[j] == m);
        }
        if m == x {
            assert(after[before.len() as int] == m);
        }
        if after.contains(m) && m != x {
            let j = choose|j: int| 0 <= j < after.len() && after[j] == m;
            assert(before[j] == m);
        }
    }
}

/// Appending nodes does not change the release keys of earlier ones.
proof fn lemma_key_stable(
    g: StoreGraph,
    alive: Seq<bool>,
    order: Seq<u32>,
    x: u32,
    j: int,
    key: (int, int),
)
    requires
        0 <= j < order.len(),
        release_key(g, alive, order, j, key),
    ensures
        release_key(g, alive, order.push(x), j, key),
{
    if key.0 >= 0 {
        assert(order.push(x).take(key.0 + 1) =~= order.take(key.0 + 1));
    }
}

/// The state of the release loop: `order` holds the released nodes, those
/// before `head` have been passed, and of the row of the node at `head` the
/// references before `k` have been passed.
spec fn releasing(
    g: StoreGraph,
    alive: Seq<bool>,
    in_degree: Seq<u32>,
    order: Seq<u32>,
    keys: Seq<(int, int)>,
    head: int,
    k: int,
) -> bool {
    let done = order.take(head).to_set();
    &&& g.wf()
    &&& alive.len() == g.size()
    &&& in_degree.len() == g.size()
    &&& 0 <= head <= order.len()
    &&& order.no_duplicates()
    &&& in_release_order(g, alive, order, order.len() as int, keys)
    &&& forall|j: int| 0 <= j < keys.len() ==> key_less(#[trigger] keys[j], (head, k))
    &&& forall|m: u32|
        dead(alive, m) ==> (#[trigger] order.contains(m) <==> in_degree[m as int] == 0)
    &&& forall|m: u32| #[trigger] order.contains(m) ==> dead(alive, m)
    &&& if k == 0 {
        forall|m: u32|
            dead(alive, m) ==> #[trigger] in_degree[m as int] == pending(
                g,
                alive,
                done,
                m,
                g.size(),
            )
    } else {
        &&& head < order.len()
        &&& k <= g.refs_of(order[head]).len()
        &&& forall|m: u32|
            dead(alive, m) ==> #[trigger] in_degree[m as int] == pending(
                g,
                alive,
                done.insert(order[head]),
                m,
                g.size(),
            ) + if m != order[head] {
                occ(g.refs_of(order[head]), k, g.refs_of(order[head]).len() as int, m)
            } else {
                0int
            }
    }
}

/// Order the dead nodes for deletion. Returns the order and how many of its
/// nodes precede the part that must be deleted as a whole.
pub fn deletion_order(g: &StoreGraph, alive: &[bool]) -> (r: (Vec<u32>, usize))
    requires
        g.wf(),
        alive@.len() == g.size(),
    ensures
        is_deletion_order(*g, alive@, r.0@, r.1 as int),
{
    let n: usize = g.len();
    let mut in_degree: Vec<u32> = in_degrees(g, alive);
    let mut order: Vec<u32> = Vec::new();
    let ghost mut keys: Seq<(int, int)> = Seq::empty();
    let mut i: usize = 0;
    while i < n
        invariant
            g.wf(),
            alive@.len() == g.size(),
            n == g.size(),
            i <= n,
            in_degree@.len() == n,
            forall|m: u32|
                dead(alive@, m) ==> #[trigger] in_degree@[m as int] == pending(
                    *g,
                    alive@,
                    Set::empty(),
                    m,
                    g.size(),
                ),
            order@.no_duplicates(),
            keys.len() == order@.len(),
            forall|j: int| 0 <= j < order@.len() ==> #[trigger] order@[j] < i,
            forall|j: int|
                0 <= j < order@.len() ==> #[trigger] keys[j] == (-1int, order@[j] as int)
                    && release_key(*g, alive@, order@, j, keys[j]),
            forall|a: int, b: int|
                0 <= a < b < order@.len() ==> #[trigger] order@[a] < #[trigger] order@[b],
            forall|m: u32| #[trigger]
                order@.contains(m) <==> dead(alive@, m) && m < i && in_degree@[m as int] == 0,
        decreases n - i,
    {
        let ghost before = order@;
        let ghost node = i as u32;
        if !alive[i] && in_degree[i] == 0 {
            order.push(i as u32);
            proof {
                keys = keys.push((-1int, i as int));
                lemma_pending_zero(*g, alive@, Set::empty(), node, g.size());
                assert(in_degree@[node as int] == 0);
                assert forall|r: u32| !(#[trigger] dead_edge(*g, alive@, r, node)) by {}
                assert forall|j: int|
                    0 <= j < order@.len() implies #[trigger] keys[j] == (
                    -1int,
                    order@[j] as int,
                ) && release_key(*g, alive@, order@, j, keys[j]) by {
                    if j < before.len() {
                        assert(keys[j] == (-1int, before[j] as int));
                        lemma_key_stable(*g, alive@, before, node, j, keys[j]);
                    }
                }
            }
        }
        proof {
            assert forall|m: u32| #[trigger] order@.contains(m) <==> dead(alive@, m) && m < i + 1
                && in_degree@[m as int] == 0 by {
                lemma_grown(before, order@, node, m);
            }
        }
        i += 1;
    }
    let mut head: usize = 0;
    proof {
        assert(order@.take(0).to_set() =~= Set::empty());
    }
    while head < order.len()
        invariant
            releasing(*g, alive@, in_degree@, order@, keys, head as int, 0),
            n == g.size(),
        decreases n - head,
    {
        let node: u32 = order[head];
        let ghost done = order@.take(head as int).to_set();
        let ghost passed = done.insert(node);
        assert(order@.contains(node));
        let refs = g.refs(node);
        proof {
            lemma_head_below(*g, alive@, order@, head as int);
            assert forall|m: u32| dead(alive@, m) implies #[trigger] in_degree@[m as int]
                == pending(*g, alive@, passed, m, g.size()) + if m != node {
                occ(refs@, 0, refs@.len() as int, m)
            } else {
                0int
            } by {
                assert(!done.contains(node)) by {
                    if done.contains(node) {
                        let j = choose|j: int|
                            0 <= j < order@.take(head as int).len() && order@.take(
                                head as int,
                            )[j] == node;
                        assert(order@[j] == node);
                    }
                }
                lemma_pending_insert(*g, alive@, done, node, m, g.size());
            }
        }
        let mut k: usize = 0;
        while k < refs.len()
            invariant
                g.wf(),
                n == g.size(),
                alive@.len() == g.size(),
                in_degree@.len() == g.size(),
                head < order@.len(),
                order@[head as int] == node,
                dead(alive@, node),
                refs@ == g.refs_of(node),
                crate::graph::nodes_below(refs@, g.size()),
                k <= refs@.len(),
                passed == order@.take(head as int).to_set().insert(node),
                order@.no_duplicates(),
                in_release_order(*g, alive@, order@, order@.len() as int, keys),
                forall|j: int|
                    0 <= j < keys.len() ==> key_less(#[trigger] keys[j], (head as int, k as int)),
                forall|m: u32|
                    dead(alive@, m) ==> (#[trigger] order@.contains(m) <==> in_degree@[m as int]
                        == 0),
                forall|m: u32| #[trigger] order@.contains(m) ==> dead(alive@, m),
                forall|m: u32|
                    dead(alive@, m) ==> #[trigger] in_degree@[m as int] == pending(
                        *g,
                        alive@,
                        passed,
                        m,
                        g.size(),
                    ) + if m != node {
                        occ(refs@, k as int, refs@.len() as int, m)
                    } else {
                        0int
                    },
            decreases refs@.len() - k,
        {
            let m: u32 = refs[k];
            let ghost order0 = order@;
            let ghost keys0 = keys;
            let ghost degree0 = in_degree@;
            proof {
                assert forall|x: u32| true implies #[trigger] occ(
                    refs@,
                    k as int,
                    refs@.len() as int,
                    x,
                ) == occ(refs@, k + 1, refs@.len() as int, x) + if m == x {
                    1int
                } else {
                    0int
                } by {
                    lemma_occ(refs@, k as int, refs@.len() as int, x);
                }
                lemma_occ(refs@, k + 1, refs@.len() as int, m);
                lemma_pending_bounds(*g, alive@, passed, m, g.size());
            }
            if m != node && !alive[m as usize] {
                assert(dead(alive@, m));
                in_degree[m as usize] = in_degree[m as usize] - 1;
                assert(!order0.contains(m));
                if in_degree[m as usize] == 0 {
                    order.push(m);
                    proof {
                        keys = keys.push((head as int, k as int));
                        lemma_pending_zero(*g, alive@, passed, m, g.size());
                        assert(order@.take(head as int) =~= order0.take(head as int));
                        assert forall|r: u32| #[trigger]
                            dead_edge(*g, alive@, r, m) implies order@.take(head + 1).contains(
                            r,
                        ) by {
                            assert(passed.contains(r));
                            lemma_take_set(order@, head as int, r);
                        }
                        assert(g.refers(node, m)) by {
                            assert(refs@[k as int] == m);
                        }
                        assert(release_key(
                            *g,
                            alive@,
                            order@,
                            order0.len() as int,
                            (head as int, k as int),
                        ));
                        assert forall|j: int| 0 <= j < order@.len() implies release_key(
                            *g,
                            alive@,
                            order@,
                            j,
                            #[trigger] keys[j],
                        ) by {
                            if j < order0.len() {
                                assert(keys[j] == keys0[j]);
                                lemma_key_stable(*g, alive@, order0, m, j, keys0[j]);
                            }
                        }
                        assert forall|a: int, b: int| 0 <= a < b < order@.len() implies key_less(
                            #[trigger] keys[a],
                            #[trigger] keys[b],
                        ) by {
                            assert(keys[a] == keys0[a]);
                            if b < order0.len() {
                                assert(keys[b] == keys0[b]);
                            }
                        }
                    }
                }
            }
            proof {
                assert forall|x: u32| dead(alive@, x) implies #[trigger] in_degree@[x as int]
                    == pending(*g, alive@, passed, x, g.size()) + if x != node {
                    occ(refs@, k + 1, refs@.len() as int, x)
                } else {
                    0int
                } by {
                    assert(degree0[x as int] == pending(*g, alive@, passed, x, g.size())
                        + if x != node {
                        occ(refs@, k as int, refs@.len() as int, x)
                    } else {
                        0int
                    });
                }
                assert forall|x: u32| dead(alive@, x) implies (#[trigger] order@.contains(x)
                    <==> in_degree@[x as int] == 0) by {
                    lemma_grown(order0, order@, m, x);
                    assert(order0.contains(x) <==> degree0[x as int] == 0);
                }
                assert forall|x: u32| #[trigger] order@.contains(x) implies dead(alive@, x) by {
                    lemma_grown(order0, order@, m, x);
                    assert(order0.contains(x) ==> dead(alive@, x));
                }
                assert forall|j: int| 0 <= j < keys.len() implies key_less(
                    #[trigger] keys[j],
                    (head as int, k + 1),
                ) by {
                    if j < keys0.len() {
                        assert(keys[j] == keys0[j]);
                    }
                }
            }
            k += 1;
        }
        proof {
            assert(order@.take(head + 1).to_set() =~= passed) by {
                assert forall|x: u32| order@.take(head + 1).to_set().contains(x)
                    <==> passed.contains(x) by {
                    lemma_take_set(order@, head as int, x);
                }
            }
        }
        head += 1;
    }
    let acyclic: usize = order.len();
    proof {
        assert(order@.take(head as int) =~= order@);
    }
    add_unreleased(g, alive, &in_degree, &mut order, Ghost(keys));
    (order, acyclic)
}

proof fn lemma_take_set(order: Seq<u32>, head: int, x: u32)
    requires
        0 <= head < order.len(),
    ensures
        order.take(head + 1).to_set().contains(x) <==> order.take(head).to_set().insert(
            order[head],
        ).contains(x),
        order.take(head + 1).to_set().contains(x) <==> order.take(head + 1).contains(x),
{
    assert(order.take(head + 1) =~= order.take(head).push(order[head]));
    lemma_grown(order.take(head), order.take(head + 1), order[head], x);
}

proof fn lemma_head_below(g: StoreGraph, alive: Seq<bool>, order: Seq<u32>, head: int)
    requires
        order.no_duplicates(),
        forall|m: u32| #[trigger] order.contains(m) ==> dead(alive, m),
        0 <= head < order.len(),
        alive.len() == g.size(),
    ensures
        head < g.size(),
{
    let ints = Seq::new(order.len(), |i: int| order[i] as int);
    assert(ints.no_duplicates());
    ints.unique_seq_to_set();
    let bound = vstd::set_lib::set_int_range(0, g.size());
    vstd::set_lib::lemma_int_range(0, g.size());
    assert(ints.to_set().subset_of(bound)) by {
        assert forall|x: int| ints.to_set().contains(x) implies bound.contains(x) by {
            let j = choose|j: int| 0 <= j < ints.len() && ints[j] == x;
            assert(order.contains(order[j]));
        }
    }
    vstd::set_lib::lemma_len_subset(ints.to_set(), bound);
}

/// Append the dead nodes that were never released.
fn add_unreleased(
    g: &StoreGraph,
    alive: &[bool],
    in_degree: &Vec<u32>,
    order: &mut Vec<u32>,
    Ghost(keys): Ghost<Seq<(int, int)>>,
)
    requires
        releasing(
            *g,
            alive@,
            in_degree@,
            old(order)@,
            keys,
            old(order)@.len() as int,
            0,
        ),
    ensures
        is_deletion_order(*g, alive@, final(order)@, old(order)@.len() as int),
{
    let n: usize = g.len();
    let ghost released = order@;
    let ghost acyclic = order@.len() as int;
    let mut i: usize = 0;
    while i < n
        invariant
            releasing(*g, alive@, in_degree@, released, keys, acyclic, 0),
            acyclic == released.len(),
            n == g.size(),
            i <= n,
            acyclic <= order@.len(),
            order@.take(acyclic) == released,
            order@.no_duplicates(),
            in_release_order(*g, alive@, order@, acyclic, keys),
            forall|a: int, b: int|
                acyclic <= a < b < order@.len() ==> #[trigger] order@[a] < #[trigger] order@[b],
            forall|a: int| acyclic <= a < order@.len() ==> #[trigger] order@[a] < i,
            forall|m: u32| #[trigger]
                order@.contains(m) <==> dead(alive@, m) && (in_degree@[m as int] == 0 || m < i),
        decreases n - i,
    {
        let ghost before = order@;
        let ghost node = i as u32;
        if !alive[i] && in_degree[i] != 0 {
            assert(dead(alive@, node));
            assert(!order@.contains(node));
            order.push(i as u32);
            proof {
                assert(order@.take(acyclic) =~= released);
                assert forall|j: int| 0 <= j < acyclic implies release_key(
                    *g,
                    alive@,
                    order@,
                    j,
                    #[trigger] keys[j],
                ) by {
                    lemma_key_stable(*g, alive@, before, node, j, keys[j]);
                }
            }
        }
        proof {
            assert forall|m: u32| #[trigger] order@.contains(m) <==> dead(alive@, m) && (
            in_degree@[m as int] == 0 || m < i + 1) by {
                lemma_grown(before, order@, node, m);
            }
        }
        i += 1;
    }
    proof {
        assert(released.take(acyclic) =~= released);
        assert forall|a: int| acyclic <= a < order@.len() implies #[trigger] held_back(
            *g,
            alive@,
            order@,
            acyclic,
            a,
        ) by {
            let m = order@[a];
            assert(order@.contains(m));
            assert(!released.contains(m)) by {
                if released.contains(m) {
                    let j = choose|j: int| 0 <= j < released.len() && released[j] == m;
                    assert(order@[j] == order@.take(acyclic)[j]);
                }
            }
            assert(in_degree@[m as int] != 0);
            lemma_pending_zero(*g, alive@, released.to_set(), m, g.size());
            let r = choose|r: u32|
                r < g.size() && #[trigger] dead_edge(*g, alive@, r, m)
                    && !released.to_set().contains(r);
            assert(order@.contains(r));
            let b = choose|b: int| 0 <= b < order@.len() && order@[b] == r;
            if b < acyclic {
                assert(order@.take(acyclic)[b] == r);
                assert(released.contains(r));
            }
            assert(dead_edge(*g, alive@, order@[b], order@[a]));
        }
    }
}

/// Every prefix of the deletion order that ends before the cyclic part, and
/// the whole order, is safe to commit: no path that stays references a path
/// that is gone.
pub proof fn law_prefix_is_safe(
    g: StoreGraph,
    alive: Seq<bool>,
    order: Seq<u32>,
    acyclic: int,
    cut: int,
    stays: u32,
    gone: u32,
)
    requires
        g.wf(),
        alive.len() == g.size(),
        g.closed(alive),
        is_deletion_order(g, alive, order, acyclic),
        0 <= cut <= acyclic || cut == order.len(),
        stays < g.size(),
        !order.take(cut).contains(stays),
        order.take(cut).contains(gone),
    ensures
        !g.refers(stays, gone),
{
    if g.refers(stays, gone) {
        let i = choose|i: int| 0 <= i < order.take(cut).len() && order.take(cut)[i] == gone;
        assert(order[i] == gone);
        assert(order.contains(gone));
        if alive[stays as int] {
            assert(alive[gone as int]);
        } else {
            assert(dead_edge(g, alive, stays, gone));
            assert(order.contains(stays));
            let j = choose|j: int| 0 <= j < order.len() && order[j] == stays;
            if i < acyclic && cut <= acyclic {
                let keys = choose|keys: Seq<(int, int)>|
                    in_release_order(g, alive, order, acyclic, keys);
                assert(release_key(g, alive, order, i, keys[i]));
                let earlier = order.take(keys[i].0 + 1);
                let p = choose|p: int| 0 <= p < earlier.len() && earlier[p] == stays;
                assert(order.take(cut)[p] == stays);
            } else {
                assert(order.take(cut)[j] == stays);
            }
        }
    }
}

/// A referrer precedes what it references, unless both belong to the part that
/// is deleted as a whole.
pub proof fn law_referrer_first(
    g: StoreGraph,
    alive: Seq<bool>,
    order: Seq<u32>,
    acyclic: int,
    i: int,
    j: int,
)
    requires
        is_deletion_order(g, alive, order, acyclic),
        0 <= i < order.len(),
        0 <= j < order.len(),
        order[i] != order[j],
        g.refers(order[i], order[j]),
    ensures
        i < j || (acyclic <= i && acyclic <= j),
{
    if j < acyclic {
        let keys = choose|keys: Seq<(int, int)>| in_release_order(g, alive, order, acyclic, keys);
        assert(release_key(g, alive, order, j, keys[j]));
        assert(order.contains(order[i]));
        assert(order.contains(order[j]));
        assert(dead_edge(g, alive, order[i], order[j]));
        let earlier = order.take(keys[j].0 + 1);
        let p = choose|p: int| 0 <= p < earlier.len() && earlier[p] == order[i];
        assert(order[p] == order[i]);
    }
}

/// There is only one deletion order.
pub proof fn law_order_is_unique(
    g: StoreGraph,
    alive: Seq<bool>,
    o1: Seq<u32>,
    a1: int,
    o2: Seq<u32>,
    a2: int,
)
    requires
        g.wf(),
        alive.len() == g.size(),
        is_deletion_order(g, alive, o1, a1),
        is_deletion_order(g, alive, o2, a2),
    ensures
        o1 == o2,
        a1 == a2,
{
    if a1 <= a2 {
        lemma_same_acyclic(g, alive, o1, a1, o2, a2, a1);
        if a1 < a2 {
            lemma_released_in_both(g, alive, o2, a2, o1, a1, a1);
            let p = choose|p: int| 0 <= p < o1.take(a1).len() && o1.take(a1)[p] == o2[a1];
            assert(o2[p] == o2.take(a1)[p]);
        }
    } else {
        lemma_same_acyclic(g, alive, o1, a1, o2, a2, a2);
        lemma_released_in_both(g, alive, o1, a1, o2, a2, a2);
        let p = choose|p: int| 0 <= p < o2.take(a2).len() && o2.take(a2)[p] == o1[a2];
        assert(o1[p] == o1.take(a2)[p]);
    }
    assert(o1.to_set() =~= o2.to_set()) by {
        assert forall|m: u32| o1.to_set().contains(m) <==> o2.to_set().contains(m) by {
            assert(o1.contains(m) <==> dead(alive, m));
            assert(o2.contains(m) <==> dead(alive, m));
        }
    }
    o1.unique_seq_to_set();
    o2.unique_seq_to_set();
    lemma_same_tail(g, alive, o1, o2, a1, o1.len() as int);
    assert(o1.take(o1.len() as int) =~= o1);
    assert(o2.take(o2.len() as int) =~= o2);
}

/// Whatever one order releases, the other releases too.
proof fn lemma_released_in_both(
    g: StoreGraph,
    alive: Seq<bool>,
    o1: Seq<u32>,
    a1: int,
    o2: Seq<u32>,
    a2: int,
    j: int,
)
    requires
        is_deletion_order(g, alive, o1, a1),
        is_deletion_order(g, alive, o2, a2),
        0 <= j < a1,
    ensures
        o2.take(a2).contains(o1[j]),
    decreases j,
{
    let m = o1[j];
    let keys = choose|keys: Seq<(int, int)>| in_release_order(g, alive, o1, a1, keys);
    assert(release_key(g, alive, o1, j, keys[j]));
    assert(o1.contains(m));
    assert(o2.contains(m));
    let i = choose|i: int| 0 <= i < o2.len() && o2[i] == m;
    if i < a2 {
        assert(o2.take(a2)[i] == m);
    } else {
        assert(held_back(g, alive, o2, a2, i));
        let b = choose|b: int| a2 <= b < o2.len() && #[trigger] dead_edge(g, alive, o2[b], o2[i]);
        let r = o2[b];
        let earlier = o1.take(keys[j].0 + 1);
        assert(earlier.contains(r));
        let p = choose|p: int| 0 <= p < earlier.len() && earlier[p] == r;
        assert(o1[p] == r);
        lemma_released_in_both(g, alive, o1, a1, o2, a2, p);
        let q = choose|q: int| 0 <= q < o2.take(a2).len() && o2.take(a2)[q] == r;
        assert(o2[q] == r);
    }
}

/// Two orders that agree before `j` give a node the same release key.
proof fn lemma_same_key(
    g: StoreGraph,
    alive: Seq<bool>,
    o1: Seq<u32>,
    o2: Seq<u32>,
    j: int,
    p: int,
    k1: (int, int),
    k2: (int, int),
)
    requires
        o1.no_duplicates(),
        o2.no_duplicates(),
        0 <= j < o1.len(),
        j <= p < o2.len(),
        o1.take(j) == o2.take(j),
        o1[j] == o2[p],
        release_key(g, alive, o1, j, k1),
        release_key(g, alive, o2, p, k2),
    ensures
        k1 == k2,
{
    let m = o1[j];
    if k1.0 < 0 {
        if k2.0 >= 0 {
            assert(dead_edge(g, alive, o2[k2.0], m));
        }
    } else {
        let r = o1[k1.0];
        assert(o2[k1.0] == r) by {
            assert(o1.take(j)[k1.0] == o2.take(j)[k1.0]);
        }
        assert(dead_edge(g, alive, r, m));
        assert(k2.0 >= 0);
        let s = o2[k2.0];
        assert(dead_edge(g, alive, s, m));
        let t1 = o1.take(k1.0 + 1);
        assert(t1.contains(s));
        let x = choose|x: int| 0 <= x < t1.len() && t1[x] == s;
        assert(o1.take(j)[x] == o2.take(j)[x]);
        assert(o2[x] == s);
        let t2 = o2.take(k2.0 + 1);
        assert(t2.contains(r));
        let y = choose|y: int| 0 <= y < t2.len() && t2[y] == r;
        assert(o2[y] == r);
        assert(k1.0 == k2.0);
        let row = g.refs_of(r);
        assert(row[k1.1] == m);
        assert(row[k2.1] == m);
    }
}

proof fn lemma_same_acyclic(
    g: StoreGraph,
    alive: Seq<bool>,
    o1: Seq<u32>,
    a1: int,
    o2: Seq<u32>,
    a2: int,
    j: int,
)
    requires
        is_deletion_order(g, alive, o1, a1),
        is_deletion_order(g, alive, o2, a2),
        0 <= j <= a1,
        j <= a2,
    ensures
        o1.take(j) == o2.take(j),
    decreases j,
{
    if j > 0 {
        let i = j - 1;
        lemma_same_acyclic(g, alive, o1, a1, o2, a2, i);
        let keys1 = choose|keys: Seq<(int, int)>| in_release_order(g, alive, o1, a1, keys);
        let keys2 = choose|keys: Seq<(int, int)>| in_release_order(g, alive, o2, a2, keys);
        lemma_released_in_both(g, alive, o1, a1, o2, a2, i);
        lemma_released_in_both(g, alive, o2, a2, o1, a1, i);
        let p2 = choose|p: int| 0 <= p < o2.take(a2).len() && o2.take(a2)[p] == o1[i];
        let p1 = choose|p: int| 0 <= p < o1.take(a1).len() && o1.take(a1)[p] == o2[i];
        if p2 < i {
            assert(o1[p2] == o1.take(i)[p2]);
            assert(o2[p2] == o2.take(i)[p2]);
        }
        if p1 < i {
            assert(o1[p1] == o1.take(i)[p1]);
            assert(o2[p1] == o2.take(i)[p1]);
        }
        assert(release_key(g, alive, o1, i, keys1[i]));
        assert(release_key(g, alive, o2, p2, keys2[p2]));
        assert(release_key(g, alive, o2, i, keys2[i]));
        assert(release_key(g, alive, o1, p1, keys1[p1]));
        lemma_same_key(g, alive, o1, o2, i, p2, keys1[i], keys2[p2]);
        lemma_same_key(g, alive, o2, o1, i, p1, keys2[i], keys1[p1]);
        if p2 > i {
            assert(key_less(keys2[i], keys2[p2]));
            if p1 > i {
                assert(key_less(keys1[i], keys1[p1]));
            }
        }
        assert(o1[i] == o2[i]);
        assert(o1.take(j) =~= o1.take(i).push(o1[i]));
        assert(o2.take(j) =~= o2.take(i).push(o2[i]));
    } else {
        assert(o1.take(0) =~= o2.take(0));
    }
}

proof fn lemma_same_tail(
    g: StoreGraph,
    alive: Seq<bool>,
    o1: Seq<u32>,
    o2: Seq<u32>,
    a: int,
    j: int,
)
    requires
        is_deletion_order(g, alive, o1, a),
        is_deletion_order(g, alive, o2, a),
        o1.take(a) == o2.take(a),
        o1.len() == o2.len(),
        a <= j <= o1.len(),
    ensures
        o1.take(j) == o2.take(j),
    decreases j,
{
    if j > a {
        let i = j - 1;
        lemma_same_tail(g, alive, o1, o2, a, i);
        assert(o1.contains(o1[i]));
        assert(o2.contains(o2[i]));
        assert(o2.contains(o1[i]));
        assert(o1.contains(o2[i]));
        let p2 = choose|p: int| 0 <= p < o2.len() && o2[p] == o1[i];
        let p1 = choose|p: int| 0 <= p < o1.len() && o1[p] == o2[i];
        if p2 < i {
            assert(o1[p2] == o1.take(i)[p2]);
            assert(o2[p2] == o2.take(i)[p2]);
        }
        if p1 < i {
            assert(o1[p1] == o1.take(i)[p1]);
            assert(o2[p1] == o2.take(i)[p1]);
        }
        assert(o1[i] == o2[i]);
        assert(o1.take(j) =~= o1.take(i).push(o1[i]));
        assert(o2.take(j) =~= o2.take(i).push(o2[i]));
    }
}

/// Exactly the nodes that are not alive are deleted, each once.
pub proof fn law_exactly_the_dead_go(
    g: StoreGraph,
    alive: Seq<bool>,
    order: Seq<u32>,
    acyclic: int,
    m: u32,
)
    requires
        is_deletion_order(g, alive, order, acyclic),
        m < alive.len(),
    ensures
        order.contains(m) <==> !alive[m as int],
        forall|i: int, j: int| 0 <= i < j < order.len() ==> order[i] != order[j],
        forall|i: int|
            0 <= i < order.len() ==> #[trigger] order[i] < alive.len() && !alive[order[i] as int],
{
    assert forall|i: int| 0 <= i < order.len() implies #[trigger] order[i] < alive.len()
        && !alive[order[i] as int] by {
        assert(order.contains(order[i]));
    }
}

/// Nodes go in the order in which their last referrers went: if a node has a
/// referrer that goes after all the referrers of another node, the other one
/// goes first. Those without any referrer go in ascending order. What goes as a
/// whole goes in ascending order, and each of it has a referrer among it.
pub proof fn law_first_released_goes_first(
    g: StoreGraph,
    alive: Seq<bool>,
    order: Seq<u32>,
    acyclic: int,
    i: int,
    j: int,
    p: int,
)
    requires
        is_deletion_order(g, alive, order, acyclic),
        0 <= i < acyclic,
        0 <= j < acyclic,
        i != j,
        0 <= p < order.len(),
    ensures
        g.refers(order[p], order[j]) && order[p] != order[j] && (forall|k: int|
            0 <= k < order.len() && #[trigger] g.refers(order[k], order[i]) && order[k] != order[i]
                ==> k < p) ==> i < j,
        (forall|k: int|
            0 <= k < order.len() && order[k] != order[i] ==> !(#[trigger] g.refers(
                order[k],
                order[i],
            ))) && (forall|k: int|
            0 <= k < order.len() && order[k] != order[j] ==> !(#[trigger] g.refers(
                order[k],
                order[j],
            ))) ==> (i < j <==> order[i] < order[j]),
        forall|a: int, b: int|
            acyclic <= a < b < order.len() ==> #[trigger] order[a] < #[trigger] order[b],
        p >= acyclic ==> exists|k: int|
            acyclic <= k < order.len() && order[k] != order[p] && #[trigger] g.refers(
                order[k],
                order[p],
            ),
{
    let keys = choose|keys: Seq<(int, int)>| in_release_order(g, alive, order, acyclic, keys);
    assert(release_key(g, alive, order, i, keys[i]));
    assert(release_key(g, alive, order, j, keys[j]));
    assert(order.contains(order[i]) && order.contains(order[j]) && order.contains(order[p]));
    if g.refers(order[p], order[j]) && order[p] != order[j] && (forall|k: int|
        0 <= k < order.len() && #[trigger] g.refers(order[k], order[i]) && order[k] != order[i]
            ==> k < p) {
        assert(dead_edge(g, alive, order[p], order[j]));
        let earlier = order.take(keys[j].0 + 1);
        assert(earlier.contains(order[p]));
        let q = choose|q: int| 0 <= q < earlier.len() && earlier[q] == order[p];
        assert(order[q] == order[p]);
        assert(q == p);
        assert(p <= keys[j].0);
        if keys[i].0 >= 0 {
            assert(dead_edge(g, alive, order[keys[i].0], order[i]));
            assert(g.refers(order[keys[i].0], order[i]));
        }
        assert(keys[i].0 < p);
        if j < i {
            assert(key_less(keys[j], keys[i]));
        }
    }
    if (forall|k: int|
        0 <= k < order.len() && order[k] != order[i] ==> !(#[trigger] g.refers(
            order[k],
            order[i],
        ))) && (forall|k: int|
        0 <= k < order.len() && order[k] != order[j] ==> !(#[trigger] g.refers(
            order[k],
            order[j],
        ))) {
        if keys[i].0 >= 0 {
            assert(dead_edge(g, alive, order[keys[i].0], order[i]));
            assert(!g.refers(order[keys[i].0], order[i]));
        }
        if keys[j].0 >= 0 {
            assert(dead_edge(g, alive, order[keys[j].0], order[j]));
            assert(!g.refers(order[keys[j].0], order[j]));
        }
        if i < j {
            assert(key_less(keys[i], keys[j]));
        } else {
            assert(key_less(keys[j], keys[i]));
        }
    }
    if p >= acyclic {
        assert(held_back(g, alive, order, acyclic, p));
        let k = choose|k: int|
            acyclic <= k < order.len() && #[trigger] dead_edge(g, alive, order[k], order[p]);
        assert(g.refers(order[k], order[p]));
    }
}

/// Two nodes with the same last referrer go in the order in which that one
/// mentions them last.
pub proof fn law_last_mention_decides(
    g: StoreGraph,
    alive: Seq<bool>,
    order: Seq<u32>,
    acyclic: int,
    i: int,
    j: int,
    p: int,
    x: int,
    y: int,
)
    requires
        is_deletion_order(g, alive, order, acyclic),
        0 <= i < acyclic,
        0 <= j < acyclic,
        0 <= p < order.len(),
        order[i] != order[p],
        order[j] != order[p],
        order[p] < g.size(),
        forall|k: int|
            0 <= k < order.len() && #[trigger] g.refers(order[k], order[i]) && order[k] != order[i]
                ==> k <= p,
        forall|k: int|
            0 <= k < order.len() && #[trigger] g.refers(order[k], order[j]) && order[k] != order[j]
                ==> k <= p,
        0 <= x < y < g.refs_of(order[p]).len(),
        g.refs_of(order[p])[x] == order[i],
        g.refs_of(order[p])[y] == order[j],
        forall|k: int|
            x < k < g.refs_of(order[p]).len() ==> #[trigger] g.refs_of(order[p])[k] != order[i],
        forall|k: int|
            y < k < g.refs_of(order[p]).len() ==> #[trigger] g.refs_of(order[p])[k] != order[j],
    ensures
        i < j,
{
    let keys = choose|keys: Seq<(int, int)>| in_release_order(g, alive, order, acyclic, keys);
    lemma_key_of_last(g, alive, order, acyclic, keys, i, p, x);
    lemma_key_of_last(g, alive, order, acyclic, keys, j, p, y);
    if j < i {
        assert(key_less(keys[j], keys[i]));
    }
}

proof fn lemma_key_of_last(
    g: StoreGraph,
    alive: Seq<bool>,
    order: Seq<u32>,
    acyclic: int,
    keys: Seq<(int, int)>,
    i: int,
    p: int,
    x: int,
)
    requires
        is_deletion_order(g, alive, order, acyclic),
        in_release_order(g, alive, order, acyclic, keys),
        0 <= i < acyclic,
        0 <= p < order.len(),
        order[i] != order[p],
        order[p] < g.size(),
        forall|k: int|
            0 <= k < order.len() && #[trigger] g.refers(order[k], order[i]) && order[k] != order[i]
                ==> k <= p,
        0 <= x < g.refs_of(order[p]).len(),
        g.refs_of(order[p])[x] == order[i],
        forall|k: int|
            x < k < g.refs_of(order[p]).len() ==> #[trigger] g.refs_of(order[p])[k] != order[i],
    ensures
        keys[i] == (p, x),
{
    let row = g.refs_of(order[p]);
    assert(row[x] == order[i]);
    assert(g.refers(order[p], order[i]));
    assert(order.contains(order[i]) && order.contains(order[p]));
    assert(dead_edge(g, alive, order[p], order[i]));
    assert(release_key(g, alive, order, i, keys[i]));
    let key = keys[i];
    assert(key.0 >= 0);
    let earlier = order.take(key.0 + 1);
    assert(earlier.contains(order[p]));
    let q = choose|q: int| 0 <= q < earlier.len() && earlier[q] == order[p];
    assert(order[q] == order[p]);
    assert(q == p);
    assert(g.refers(order[key.0], order[i]));
    assert(key.0 == p);
    assert(row[key.1] == order[i]);
    if key.1 < x {
        assert(row[x] != order[i]);
    }
}

} // verus!
