//! Liveness state shared between the deletion loop and the socket server.
use crate::graph::BasenameIndex;
use crate::graph::StoreGraph;
use crate::text;
use crate::text_set;
use crate::text_set::TextSet;
use std::collections::HashSet;
use vstd::hash_set::StringHashSet;
use vstd::prelude::*;

verus! {

/// What a `LiveSet` holds.
#[verifier::ext_equal]
pub struct LiveView {
    /// Per-node "do not delete" flag, indexed by graph node id.
    pub protected: Seq<bool>,
    /// Basenames protected that are not (yet) in the graph, in the order in
    /// which they were first protected.
    pub protected_unknown: Seq<Seq<char>>,
    /// Graph nodes currently being deleted.
    pub pending_nodes: Set<u32>,
    /// Unknown-on-disk basenames currently being deleted.
    pub pending_unknown: Set<Seq<char>>,
}

impl LiveView {
    /// The state with other pending nodes.
    pub open spec fn with_pending(self, pending_nodes: Set<u32>) -> LiveView {
        LiveView { pending_nodes, ..self }
    }

    /// The state with other pending basenames.
    pub open spec fn with_pending_unknown(self, pending_unknown: Set<Seq<char>>) -> LiveView {
        LiveView { pending_unknown, ..self }
    }

    /// The state in which `basename` is protected by name.
    pub open spec fn with_protected_name(self, basename: Seq<char>) -> LiveView {
        LiveView {
            protected_unknown: text_set::with_item(self.protected_unknown, basename),
            ..self
        }
    }

    /// The state in which everything that `root` reaches is protected.
    pub open spec fn with_protected_closure(self, g: StoreGraph, root: u32) -> LiveView {
        LiveView {
            protected: Seq::new(
                self.protected.len(),
                |i: int| self.protected[i] || g.reaches(root, i as u32),
            ),
            ..self
        }
    }

    /// The protected nodes of `g` are closed under references.
    pub open spec fn closed_in(self, g: StoreGraph) -> bool {
        self.protected.len() == g.size() && g.closed(self.protected)
    }

    /// `later` can come after this state: nothing loses its protection, and
    /// the deletion of what is protected is never begun anew.
    pub open spec fn leads_to(self, later: LiveView) -> bool {
        &&& later.protected.len() == self.protected.len()
        &&& forall|n: u32|
            n < self.protected.len() && #[trigger] self.protected[n as int] ==> {
                &&& later.protected[n as int]
                &&& later.pending_nodes.contains(n) ==> self.pending_nodes.contains(n)
            }
        &&& forall|b: Seq<char>| #[trigger]
            self.protected_unknown.contains(b) ==> {
                &&& later.protected_unknown.contains(b)
                &&& later.pending_unknown.contains(b) ==> self.pending_unknown.contains(b)
            }
    }
}

/// True when the closure that a client waits for is still being deleted.
pub open spec fn in_conflict(v: LiveView, wait_for: Seq<u32>, basename: Seq<char>) -> bool {
    ||| exists|i: int| 0 <= i < wait_for.len() && v.pending_nodes.contains(#[trigger] wait_for[i])
    ||| v.pending_unknown.contains(basename)
}

/// Liveness state shared between the deletion loop and the socket server.
/// Roots from clients can only flip dead -> protected; the pending sets track
/// in-flight unlinks so that a client waits for them before it is acked.
pub struct LiveSet {
    protected: Vec<bool>,
    protected_unknown: TextSet,
    pending_nodes: HashSet<u32>,
    pending_unknown: StringHashSet,
}

impl View for LiveSet {
    type V = LiveView;

    closed spec fn view(&self) -> LiveView {
        LiveView {
            protected: self.protected@,
            protected_unknown: self.protected_unknown@,
            pending_nodes: self.pending_nodes@,
            pending_unknown: self.pending_unknown@,
        }
    }
}

impl LiveSet {
    /// The set of protected names is well formed.
    pub closed spec fn wf(&self) -> bool {
        self.protected_unknown.wf()
    }

    /// Nothing protected, nothing pending.
    pub fn new(n_nodes: usize) -> (r: LiveSet)
        ensures
            r.wf(),
            r@ == (LiveView {
                protected: Seq::new(n_nodes as nat, |i: int| false),
                protected_unknown: Seq::empty(),
                pending_nodes: Set::empty(),
                pending_unknown: Set::empty(),
            }),
    {
        broadcast use vstd::std_specs::hash::group_hash_axioms;

        let protected: Vec<bool> = vec![false; n_nodes];
        let r = LiveSet {
            protected,
            protected_unknown: TextSet::new(),
            pending_nodes: HashSet::new(),
            pending_unknown: StringHashSet::new(),
        };
        assert(r@.protected =~= Seq::new(n_nodes as nat, |i: int| false));
        assert(r@.pending_nodes =~= Set::empty());
        r
    }

    /// Check that `node` is unprotected and mark it pending. Returns `false`
    /// (skip deletion) if the node was protected meanwhile.
    pub fn try_begin_delete_node(&mut self, node: u32) -> (r: bool)
        requires
            old(self).wf(),
            node < old(self)@.protected.len(),
        ensures
            final(self).wf(),
            r == !old(self)@.protected[node as int],
            final(self)@ == if r {
                old(self)@.with_pending(old(self)@.pending_nodes.insert(node))
            } else {
                old(self)@
            },
            old(self)@.leads_to(final(self)@),
    {
        broadcast use vstd::std_specs::hash::group_hash_axioms;

        if self.protected[node as usize] {
            return false;
        }
        self.pending_nodes.insert(node);
        true
    }

    /// The deletion of `node` is over.
    pub fn end_delete_node(&mut self, node: u32)
        requires
            old(self).wf(),
        ensures
            final(self).wf(),
            final(self)@ == old(self)@.with_pending(old(self)@.pending_nodes.remove(node)),
            old(self)@.leads_to(final(self)@),
    {
        broadcast use vstd::std_specs::hash::group_hash_axioms;

        self.pending_nodes.remove(&node);
    }

    /// Partition `nodes` into (claimed, skipped): skipped nodes are protected;
    /// claimed ones are marked pending. Claiming before the rows are
    /// invalidated means that a client that asks for a claimed node later
    /// waits until its unlink is over.
    pub fn claim_nodes(&mut self, nodes: &[u32]) -> (r: (Vec<u32>, Vec<u32>))
        requires
            old(self).wf(),
            crate::graph::nodes_below(nodes@, old(self)@.protected.len() as int),
        ensures
            final(self).wf(),
            r.0@ == nodes@.filter(|n: u32| !old(self)@.protected[n as int]),
            r.1@ == nodes@.filter(|n: u32| old(self)@.protected[n as int]),
            final(self)@ == old(self)@.with_pending(
                old(self)@.pending_nodes.union(r.0@.to_set()),
            ),
            old(self)@.leads_to(final(self)@),
    {
        broadcast use vstd::std_specs::hash::group_hash_axioms;

        let ghost before = self@;
        let ghost free = |n: u32| !before.protected[n as int];
        let ghost kept = |n: u32| before.protected[n as int];
        let mut claimed: Vec<u32> = Vec::new();
        let mut skipped: Vec<u32> = Vec::new();
        let mut i: usize = 0;
        proof {
            assert(claimed@.to_set() =~= Set::empty());
            assert(nodes@.take(0).filter(free) =~= Seq::empty()) by {
                reveal(Seq::filter);
            }
            assert(nodes@.take(0).filter(kept) =~= Seq::empty()) by {
                reveal(Seq::filter);
            }
            assert(before.pending_nodes.union(Set::empty()) =~= before.pending_nodes);
        }
        while i < nodes.len()
            invariant
                before == old(self)@,
                free == (|n: u32| !before.protected[n as int]),
                kept == (|n: u32| before.protected[n as int]),
                crate::graph::nodes_below(nodes@, before.protected.len() as int),
                i <= nodes@.len(),
                self.wf(),
                claimed@ == nodes@.take(i as int).filter(free),
                skipped@ == nodes@.take(i as int).filter(kept),
                self@ == before.with_pending(before.pending_nodes.union(claimed@.to_set())),
            decreases nodes@.len() - i,
        {
            let n: u32 = nodes[i];
            let ghost claimed0 = claimed@;
            proof {
                assert(nodes@.take(i + 1) =~= nodes@.take(i as int).push(n));
                nodes@.take(i as int).lemma_filter_push(n, free);
                nodes@.take(i as int).lemma_filter_push(n, kept);
            }
            if self.protected[n as usize] {
                skipped.push(n);
            } else {
                self.pending_nodes.insert(n);
                claimed.push(n);
                proof {
                    assert(claimed@.to_set() =~= claimed0.to_set().insert(n)) by {
                        lemma_push_set(claimed0, n);
                    }
                    assert(before.pending_nodes.union(claimed@.to_set())
                        =~= before.pending_nodes.union(claimed0.to_set()).insert(n));
                }
            }
            i += 1;
        }
        proof {
            assert(nodes@.take(i as int) =~= nodes@);
            assert forall|n: u32| claimed@.to_set().contains(n) implies free(n) by {
                nodes@.lemma_filter_contains_rev(free, n);
            }
        }
        (claimed, skipped)
    }

    /// Same as `try_begin_delete_node` for paths not in the graph.
    pub fn try_begin_delete_unknown(&mut self, basename: &str) -> (r: bool)
        requires
            old(self).wf(),
        ensures
            final(self).wf(),
            r == !old(self)@.protected_unknown.contains(basename@),
            final(self)@ == if r {
                old(self)@.with_pending_unknown(old(self)@.pending_unknown.insert(basename@))
            } else {
                old(self)@
            },
            old(self)@.leads_to(final(self)@),
    {
        if self.protected_unknown.contains(basename) {
            return false;
        }
        self.pending_unknown.insert(basename.to_owned());
        true
    }

    /// The deletion of `basename` is over.
    pub fn end_delete_unknown(&mut self, basename: &str)
        requires
            old(self).wf(),
        ensures
            final(self).wf(),
            final(self)@ == old(self)@.with_pending_unknown(
                old(self)@.pending_unknown.remove(basename@),
            ),
            old(self)@.leads_to(final(self)@),
    {
        self.pending_unknown.remove(basename);
    }

    /// Protect a basename that is not in the graph.
    pub fn protect_unknown_basename(&mut self, basename: &str)
        requires
            old(self).wf(),
        ensures
            final(self).wf(),
            final(self)@ == old(self)@.with_protected_name(basename@),
            old(self)@.leads_to(final(self)@),
    {
        let ghost before = self@;
        self.protected_unknown.insert(basename);
        proof {
            assert forall|b: Seq<char>| #[trigger]
                before.protected_unknown.contains(b) implies self@.protected_unknown.contains(b) by {
                text_set::lemma_with_item(before.protected_unknown, basename@, b);
            }
        }
    }

    /// The protection flags of the graph's nodes.
    pub fn protected_snapshot(&self) -> (r: Vec<bool>)
        ensures
            r@ == self@.protected,
    {
        let r = self.protected.clone();
        assert(r@ =~= self.protected@);
        r
    }

    /// The protected basenames that are not in the graph.
    pub fn protected_unknown_snapshot(&self) -> (r: Vec<String>)
        ensures
            text::views(r@) == self@.protected_unknown,
    {
        text::copy_texts(self.protected_unknown.items())
    }

    /// Mark the closure of `basename` as protected. Returns the nodes of the
    /// closure that are still being deleted; the client must not be acked
    /// while `conflict` holds for them.
    pub fn begin_protect(
        &mut self,
        basename: &str,
        graph: &StoreGraph,
        idx: &BasenameIndex,
    ) -> (wait_for: Vec<u32>)
        requires
            old(self).wf(),
            graph.wf(),
            old(self)@.protected.len() == graph.size(),
            idx.indexes(graph.paths@, graph.store_prefix@),
        ensures
            final(self).wf(),
            old(self)@.leads_to(final(self)@),
            idx.map@.contains_key(basename@) ==> {
                let root = idx.map@[basename@];
                &&& final(self)@ == old(self)@.with_protected_closure(*graph, root)
                &&& forall|n: u32| #[trigger]
                    wait_for@.contains(n) <==> graph.reaches(root, n)
                        && old(self)@.pending_nodes.contains(n)
            },
            !idx.map@.contains_key(basename@) ==> {
                &&& final(self)@ == old(self)@.with_protected_name(basename@)
                &&& wait_for@.len() == 0
            },
            old(self)@.closed_in(*graph) ==> final(self)@.closed_in(*graph),
    {
        broadcast use vstd::std_specs::hash::group_hash_axioms;

        let ghost before = self@;
        let mut wait_for: Vec<u32> = Vec::new();
        match idx.idx_of_basename(basename) {
            Some(root) => {
                assert(crate::graph::last_named(
                    graph.paths@,
                    graph.store_prefix@,
                    basename@,
                    root as int,
                ));
                let closure = graph.closure_of(root);
                let mut i: usize = 0;
                while i < closure.len()
                    invariant
                        graph.wf(),
                        before == old(self)@,
                        before.protected.len() == graph.size(),
                        crate::graph::nodes_below(closure@, graph.size()),
                        i <= closure@.len(),
                        self.wf(),
                        self@.protected.len() == before.protected.len(),
                        self@ == (LiveView { protected: self@.protected, ..before }),
                        forall|n: int|
                            0 <= n < self@.protected.len() ==> (#[trigger] self@.protected[n]
                                <==> before.protected[n] || closure@.take(i as int).contains(
                                n as u32,
                            )),
                        forall|n: u32| #[trigger]
                            wait_for@.contains(n) <==> closure@.take(i as int).contains(n)
                                && before.pending_nodes.contains(n),
                    decreases closure@.len() - i,
                {
                    let n: u32 = closure[i];
                    let ghost wait0 = wait_for@;
                    let ghost prot0 = self@.protected;
                    let ghost taken = closure@.take(i as int);
                    assert(closure@.take(i + 1) =~= taken.push(n));
                    self.protected[n as usize] = true;
                    if self.pending_nodes.contains(&n) {
                        wait_for.push(n);
                    }
                    proof {
                        assert(self@.protected =~= prot0.update(n as int, true));
                        assert forall|x: u32| #[trigger]
                            taken.push(n).contains(x) <==> taken.contains(x) || x == n by {
                            lemma_push_contains(taken, n, x);
                        }
                        assert forall|x: u32| #[trigger] wait_for@.contains(x) <==> taken.push(
                            n,
                        ).contains(x) && before.pending_nodes.contains(x) by {
                            lemma_push_contains(wait0, n, x);
                            lemma_push_contains(taken, n, x);
                        }
                        assert forall|x: int| 0 <= x < self@.protected.len() implies (
                        #[trigger] self@.protected[x] <==> before.protected[x] || taken.push(
                            n,
                        ).contains(x as u32)) by {
                            lemma_push_contains(taken, n, x as u32);
                            assert(prot0[x] <==> before.protected[x] || taken.contains(x as u32));
                        }
                    }
                    i += 1;
                }
                proof {
                    assert(closure@.take(i as int) =~= closure@);
                    let after = before.with_protected_closure(*graph, root);
                    assert(self@.protected =~= after.protected) by {
                        assert forall|n: int| 0 <= n < self@.protected.len() implies
                            self@.protected[n] == after.protected[n] by {
                            assert(closure@.contains(n as u32) <==> graph.reaches(root, n as u32));
                        }
                    }
                    if before.closed_in(*graph) {
                        lemma_closure_closed(before, *graph, root);
                    }
                }
            },
            None => {
                self.protect_unknown_basename(basename);
            },
        }
        wait_for
    }

    /// True while some node of `wait_for`, or `basename` itself, is still
    /// being deleted.
    pub fn conflict(&self, wait_for: &[u32], basename: &str) -> (r: bool)
        ensures
            r == in_conflict(self@, wait_for@, basename@),
    {
        broadcast use vstd::std_specs::hash::group_hash_axioms;

        let mut i: usize = 0;
        while i < wait_for.len()
            invariant
                i <= wait_for@.len(),
                forall|j: int|
                    0 <= j < i ==> !self@.pending_nodes.contains(#[trigger] wait_for@[j]),
            decreases wait_for@.len() - i,
        {
            if self.pending_nodes.contains(&wait_for[i]) {
                return true;
            }
            i += 1;
        }
        self.pending_unknown.contains(basename)
    }

    /// Keep only the claimed nodes that no skipped node reaches, and release
    /// the others.
    pub fn settle_claim(
        &mut self,
        graph: &StoreGraph,
        claimed: Vec<u32>,
        skipped: &[u32],
    ) -> (r: Vec<u32>)
        requires
            old(self).wf(),
            graph.wf(),
            crate::graph::nodes_below(claimed@, graph.size()),
            crate::graph::nodes_below(skipped@, graph.size()),
        ensures
            final(self).wf(),
            r@ == claimed@.filter(|n: u32| !graph.live(skipped@, n)),
            final(self)@ == old(self)@.with_pending(
                old(self)@.pending_nodes.difference(
                    claimed@.filter(|n: u32| graph.live(skipped@, n)).to_set(),
                ),
            ),
            old(self)@.leads_to(final(self)@),
    {
        let ghost before = self@;
        let ghost stays = |n: u32| !graph.live(skipped@, n);
        let ghost goes = |n: u32| graph.live(skipped@, n);
        if skipped.len() == 0 {
            proof {
                assert forall|n: u32| !(#[trigger] graph.live(skipped@, n)) by {}
                lemma_filter_all(claimed@, stays);
                lemma_filter_none(claimed@, goes);
                assert(Seq::<u32>::empty().to_set() =~= Set::empty());
                assert(before.pending_nodes.difference(Set::empty()) =~= before.pending_nodes);
            }
            return claimed;
        }
        let keep_out = graph.compute_closure(skipped);
        let mut r: Vec<u32> = Vec::new();
        let ghost mut dropped: Seq<u32> = Seq::empty();
        let mut i: usize = 0;
        proof {
            assert(claimed@.take(0).filter(stays) =~= Seq::empty()) by {
                reveal(Seq::filter);
            }
            assert(claimed@.take(0).filter(goes) =~= Seq::empty()) by {
                reveal(Seq::filter);
            }
            assert(dropped.to_set() =~= Set::empty());
            assert(before.pending_nodes.difference(Set::empty()) =~= before.pending_nodes);
        }
        while i < claimed.len()
            invariant
                graph.wf(),
                before == old(self)@,
                crate::graph::nodes_below(claimed@, graph.size()),
                stays == (|n: u32| !graph.live(skipped@, n)),
                goes == (|n: u32| graph.live(skipped@, n)),
                keep_out@.len() == graph.size(),
                forall|n: u32|
                    n < graph.size() ==> (#[trigger] keep_out@[n as int] <==> graph.live(
                        skipped@,
                        n,
                    )),
                i <= claimed@.len(),
                self.wf(),
                r@ == claimed@.take(i as int).filter(stays),
                dropped == claimed@.take(i as int).filter(goes),
                before.leads_to(self@),
                self@ == before.with_pending(before.pending_nodes.difference(dropped.to_set())),
            decreases claimed@.len() - i,
        {
            let n: u32 = claimed[i];
            let ghost dropped0 = dropped;
            proof {
                assert(claimed@.take(i + 1) =~= claimed@.take(i as int).push(n));
                claimed@.take(i as int).lemma_filter_push(n, stays);
                claimed@.take(i as int).lemma_filter_push(n, goes);
            }
            if keep_out[n as usize] {
                self.end_delete_node(n);
                proof {
                    dropped = dropped.push(n);
                    lemma_push_set(dropped0, n);
                    assert(before.pending_nodes.difference(dropped.to_set())
                        =~= before.pending_nodes.difference(dropped0.to_set()).remove(n));
                }
            } else {
                r.push(n);
            }
            i += 1;
        }
        assert(claimed@.take(i as int) =~= claimed@);
        r
    }
}

proof fn lemma_push_contains(s: Seq<u32>, n: u32, x: u32)
    ensures
        s.push(n).contains(x) <==> s.contains(x) || x == n,
{
    if s.contains(x) {
        let j = choose|j: int| 0 <= j < s.len() && s[j] == x;
        assert(s.push(n)[j] == x);
    }
    if x == n {
        assert(s.push(n)[s.len() as int] == x);
    }
}

proof fn lemma_push_set(s: Seq<u32>, n: u32)
    ensures
        s.push(n).to_set() == s.to_set().insert(n),
{
    assert forall|x: u32| #[trigger] s.push(n).to_set().contains(x) <==> s.to_set().insert(
        n,
    ).contains(x) by {
        lemma_push_contains(s, n, x);
    }
    assert(s.push(n).to_set() =~= s.to_set().insert(n));
}

proof fn lemma_filter_all(s: Seq<u32>, p: spec_fn(u32) -> bool)
    requires
        forall|i: int| 0 <= i < s.len() ==> p(#[trigger] s[i]),
    ensures
        s.filter(p) == s,
    decreases s.len(),
{
    reveal(Seq::filter);
    if s.len() > 0 {
        lemma_filter_all(s.drop_last(), p);
        assert(s.drop_last().push(s.last()) =~= s);
    } else {
        assert(s.filter(p) =~= s);
    }
}

proof fn lemma_filter_none(s: Seq<u32>, p: spec_fn(u32) -> bool)
    requires
        forall|i: int| 0 <= i < s.len() ==> !p(#[trigger] s[i]),
    ensures
        s.filter(p) == Seq::<u32>::empty(),
    decreases s.len(),
{
    reveal(Seq::filter);
    if s.len() > 0 {
        lemma_filter_none(s.drop_last(), p);
    }
}

proof fn lemma_closure_closed(before: LiveView, g: StoreGraph, root: u32)
    requires
        g.wf(),
        before.closed_in(g),
    ensures
        before.with_protected_closure(g, root).closed_in(g),
{
    let after = before.with_protected_closure(g, root);
    assert forall|a: u32, b: u32|
        a < g.size() && after.protected[a as int] && #[trigger] g.refers(
            a,
            b,
        ) implies after.protected[b as int] by {
        g.lemma_refers_below(a, b);
        if g.reaches(root, a) {
            g.lemma_reaches_step(root, a, b);
        }
    }
}

/// Every state leads to itself, and what a later state leads to, an earlier
/// one leads to as well.
pub proof fn law_leads_to_is_a_preorder(a: LiveView, b: LiveView, c: LiveView)
    requires
        a.leads_to(b),
        b.leads_to(c),
    ensures
        a.leads_to(a),
        a.leads_to(c),
{
    assert forall|n: u32| n < a.protected.len() && #[trigger] a.protected[n as int] implies {
        &&& c.protected[n as int]
        &&& c.pending_nodes.contains(n) ==> a.pending_nodes.contains(n)
    } by {
        assert(b.protected[n as int]);
    }
    assert forall|x: Seq<char>| #[trigger] a.protected_unknown.contains(x) implies {
        &&& c.protected_unknown.contains(x)
        &&& c.pending_unknown.contains(x) ==> a.pending_unknown.contains(x)
    } by {
        assert(b.protected_unknown.contains(x));
    }
}

/// When a client is acked for a path of the graph, its whole closure is
/// protected and none of it is being deleted, whatever happened between the
/// request and the ack.
pub proof fn law_acked_closure_is_settled(
    before: LiveView,
    g: StoreGraph,
    root: u32,
    wait_for: Seq<u32>,
    basename: Seq<char>,
    acked: LiveView,
    n: u32,
)
    requires
        g.wf(),
        before.protected.len() == g.size(),
        forall|m: u32| #[trigger]
            wait_for.contains(m) <==> g.reaches(root, m) && before.pending_nodes.contains(m),
        before.with_protected_closure(g, root).leads_to(acked),
        !in_conflict(acked, wait_for, basename),
        g.reaches(root, n),
    ensures
        acked.protected[n as int],
        !acked.pending_nodes.contains(n),
{
    g.lemma_reaches_below(root, n);
    let marked = before.with_protected_closure(g, root);
    assert(marked.protected[n as int]);
    if acked.pending_nodes.contains(n) {
        assert(before.pending_nodes.contains(n));
        assert(wait_for.contains(n));
        let i = choose|i: int| 0 <= i < wait_for.len() && wait_for[i] == n;
        assert(acked.pending_nodes.contains(wait_for[i]));
    }
}

/// When a client is acked for a path outside the graph, its name is protected
/// and it is not being deleted.
pub proof fn law_acked_name_is_settled(before: LiveView, basename: Seq<char>, acked: LiveView)
    requires
        before.with_protected_name(basename).leads_to(acked),
        !in_conflict(acked, Seq::empty(), basename),
    ensures
        acked.protected_unknown.contains(basename),
        !acked.pending_unknown.contains(basename),
{
    let marked = before.with_protected_name(basename);
    text_set::lemma_with_item(before.protected_unknown, basename, basename);
    assert(marked.protected_unknown.contains(basename));
}

/// What is protected does not reference what is claimed for deletion, so no
/// claimed node is released again because of a skipped one.
pub proof fn law_settling_releases_nothing(v: LiveView, g: StoreGraph, nodes: Seq<u32>)
    requires
        g.wf(),
        v.closed_in(g),
        crate::graph::nodes_below(nodes, g.size()),
    ensures
        ({
            let claimed = nodes.filter(|n: u32| !v.protected[n as int]);
            let skipped = nodes.filter(|n: u32| v.protected[n as int]);
            claimed.filter(|n: u32| !g.live(skipped, n)) == claimed
        }),
{
    let free = |n: u32| !v.protected[n as int];
    let kept = |n: u32| v.protected[n as int];
    let claimed = nodes.filter(free);
    let skipped = nodes.filter(kept);
    let stays = |n: u32| !g.live(skipped, n);
    assert forall|i: int| 0 <= i < claimed.len() implies stays(#[trigger] claimed[i]) by {
        let n = claimed[i];
        nodes.lemma_filter_contains_rev(free, n);
        if g.live(skipped, n) {
            assert forall|j: int| 0 <= j < skipped.len() implies v.protected[
            #[trigger] skipped[j] as int] by {
                nodes.lemma_filter_contains_rev(kept, skipped[j]);
            }
            g.lemma_closed_holds_live(v.protected, skipped, n);
        }
    }
    lemma_filter_all(claimed, stays);
}

/// If a path was protected when its turn came, nothing that it references is
/// claimed at that moment or later.
pub proof fn law_protected_keeps_its_references(
    g: StoreGraph,
    at_turn: LiveView,
    at_claim: LiveView,
    stays: u32,
    referenced: u32,
)
    requires
        g.wf(),
        at_turn.leads_to(at_claim),
        at_turn.protected.len() == g.size(),
        at_claim.closed_in(g),
        stays < g.size(),
        at_turn.protected[stays as int],
        g.refers(stays, referenced),
    ensures
        at_claim.protected[referenced as int],
{
    assert(at_claim.protected[stays as int]);
}

/// What can happen between two states: a client protects a closure or a name, or
/// deletions of nodes or names begin or end.
pub open spec fn steps_to(g: StoreGraph, a: LiveView, b: LiveView) -> bool {
    ||| exists|root: u32| b == #[trigger] a.with_protected_closure(g, root)
    ||| exists|name: Seq<char>| b == #[trigger] a.with_protected_name(name)
    ||| exists|nodes: Set<u32>| b == #[trigger] a.with_pending(nodes)
    ||| exists|names: Set<Seq<char>>| b == #[trigger] a.with_pending_unknown(names)
}

/// The states of a `LiveSet` from its making on.
pub open spec fn is_history(g: StoreGraph, states: Seq<LiveView>) -> bool {
    &&& states.len() > 0
    &&& states[0].protected == Seq::new(g.size() as nat, |i: int| false)
    &&& forall|k: int| 0 <= k < states.len() - 1 ==> steps_to(g, #[trigger] states[k], states[k + 1])
}

/// At any time, whatever a protected node references is protected, and what is
/// protected stays so.
pub proof fn law_protection_is_closed_and_stays(
    g: StoreGraph,
    states: Seq<LiveView>,
    i: int,
    j: int,
    n: u32,
)
    requires
        g.wf(),
        is_history(g, states),
        0 <= i <= j < states.len(),
        n < g.size(),
    ensures
        states[i].closed_in(g),
        states[j].closed_in(g),
        states[i].protected[n as int] ==> states[j].protected[n as int],
    decreases j,
{
    if j == 0 {
        assert(states[0].closed_in(g));
    } else {
        law_protection_is_closed_and_stays(
            g,
            states,
            if i < j {
                i
            } else {
                j - 1
            },
            j - 1,
            n,
        );
        let a = states[j - 1];
        let b = states[j - 1 + 1];
        assert(steps_to(g, a, b));
        if exists|root: u32| b == #[trigger] a.with_protected_closure(g, root) {
            let root = choose|root: u32| b == #[trigger] a.with_protected_closure(g, root);
            lemma_closure_closed(a, g, root);
        } else {
            assert(b.protected == a.protected);
        }
    }
}

/// Protecting a path protects it and what it reaches, and nothing more: whatever
/// is closed under references and holds what was protected and the path holds
/// all that is protected now. Names and pending deletions stay as they are.
pub proof fn law_the_closure_alone_is_protected(
    v: LiveView,
    g: StoreGraph,
    root: u32,
    marked: Seq<bool>,
    n: u32,
)
    requires
        g.wf(),
        v.protected.len() == g.size(),
        root < g.size(),
        n < g.size(),
        marked.len() == g.size(),
        g.closed(marked),
        marked[root as int],
        forall|m: u32| m < g.size() && #[trigger] v.protected[m as int] ==> marked[m as int],
    ensures
        v.with_protected_closure(g, root).protected[root as int],
        v.protected[n as int] ==> v.with_protected_closure(g, root).protected[n as int],
        v.with_protected_closure(g, root).protected[n as int] ==> marked[n as int],
        v.with_protected_closure(g, root).protected.len() == v.protected.len(),
        v.with_protected_closure(g, root).protected_unknown == v.protected_unknown,
        v.with_protected_closure(g, root).pending_nodes == v.pending_nodes,
        v.with_protected_closure(g, root).pending_unknown == v.pending_unknown,
{
    g.lemma_reaches_self(root);
    if g.reaches(root, n) {
        let roots = seq![root];
        assert(roots[0] == root);
        assert(roots.contains(root));
        assert(g.live(roots, n));
        g.lemma_closed_holds_live(marked, roots, n);
    }
}

/// Protecting a name protects that name and changes nothing else.
pub proof fn law_the_name_alone_is_protected(v: LiveView, name: Seq<char>, other: Seq<char>)
    ensures
        v.with_protected_name(name).protected_unknown.contains(other)
            <==> v.protected_unknown.contains(other) || other == name,
        v.with_protected_name(name).protected == v.protected,
        v.with_protected_name(name).pending_nodes == v.pending_nodes,
        v.with_protected_name(name).pending_unknown == v.pending_unknown,
{
    text_set::lemma_with_item(v.protected_unknown, name, other);
}

/// A client waits exactly as long as a node that it waits for, or its own name,
/// is being deleted.
pub proof fn law_clients_wait_no_longer(v: LiveView, wait_for: Seq<u32>, basename: Seq<char>)
    ensures
        in_conflict(v, wait_for, basename) <==> v.pending_unknown.contains(basename) || exists|
            n: u32,
        | #[trigger]
            wait_for.contains(n) && v.pending_nodes.contains(n),
{
    if exists|n: u32| #[trigger] wait_for.contains(n) && v.pending_nodes.contains(n) {
        let n = choose|n: u32| #[trigger] wait_for.contains(n) && v.pending_nodes.contains(n);
        let i = choose|i: int| 0 <= i < wait_for.len() && wait_for[i] == n;
        assert(v.pending_nodes.contains(wait_for[i]));
    }
    if exists|i: int| 0 <= i < wait_for.len() && v.pending_nodes.contains(#[trigger] wait_for[i]) {
        let i = choose|i: int|
            0 <= i < wait_for.len() && v.pending_nodes.contains(#[trigger] wait_for[i]);
        assert(wait_for.contains(wait_for[i]));
    }
}

} // verus!
