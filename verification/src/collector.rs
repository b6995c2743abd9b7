//! The course of a collection: its steps, and the deletion of dead paths chunk
//! by chunk.
use crate::deletion;
use crate::gc;
use crate::gc::GcOptions;
use crate::gc::GcRefusal;
use crate::gc::Liveness;
use crate::gc::TempRootSet;
use crate::graph;
use crate::graph::BasenameIndex;
use crate::graph::StoreGraph;
use crate::live_set;
use crate::live_set::LiveSet;
use crate::numbers;
use crate::paths;
use crate::roots;
use crate::roots::RootEntry;
use crate::size;
use crate::temp_roots;
use crate::text;
use crate::text_set;
use vstd::prelude::*;
use vstd::utf8;

verus! {

/// A step of a collection.
#[derive(Clone, Copy, PartialEq, Eq, Structural)]
pub enum GcStep {
    /// Remove the reserved space file: on a full disk the database needs room
    /// before anything has been unlinked.
    FreeReserve,
    /// Take the global lock, so that no new roots appear unseen.
    TakeLock,
    /// Remount the store writable.
    MakeWritable,
    /// Serve the socket without a graph: every root is acked and remembered.
    ServeEarly,
    /// Read the graph.
    LoadGraph,
    /// Serve the socket with the graph.
    ServeGraph,
    /// Find the roots and decide what is alive.
    FindRoots,
    /// Print what would be deleted.
    Report,
    /// Delete the dead paths.
    DeleteDead,
    /// Delete what is on disk but not in the database.
    DeleteUnknown,
    /// Delete shared files that nothing uses.
    CleanLinks,
    /// Vacuum the database.
    Vacuum,
    /// Return the result.
    Finish,
}

/// The place of a step in the course of a collection.
pub open spec fn step_rank(step: GcStep) -> int {
    match step {
        GcStep::FreeReserve => 0,
        GcStep::TakeLock => 1,
        GcStep::MakeWritable => 2,
        GcStep::ServeEarly => 3,
        GcStep::LoadGraph => 4,
        GcStep::ServeGraph => 5,
        GcStep::FindRoots => 6,
        GcStep::Report => 7,
        GcStep::DeleteDead => 8,
        GcStep::DeleteUnknown => 9,
        GcStep::CleanLinks => 10,
        GcStep::Vacuum => 11,
        GcStep::Finish => 12,
    }
}

/// The first step.
pub open spec fn first(dry_run: bool) -> GcStep {
    if dry_run {
        GcStep::TakeLock
    } else {
        GcStep::FreeReserve
    }
}

/// The step that follows. Entries that the database does not know are deleted
/// only while less than the limit has been freed.
pub open spec fn following(step: GcStep, dry_run: bool, no_vacuum: bool, below_limit: bool) -> GcStep {
    match step {
        GcStep::FreeReserve => GcStep::TakeLock,
        GcStep::TakeLock => if dry_run {
            GcStep::ServeEarly
        } else {
            GcStep::MakeWritable
        },
        GcStep::MakeWritable => GcStep::ServeEarly,
        GcStep::ServeEarly => GcStep::LoadGraph,
        GcStep::LoadGraph => GcStep::ServeGraph,
        GcStep::ServeGraph => GcStep::FindRoots,
        GcStep::FindRoots => if dry_run {
            GcStep::Report
        } else {
            GcStep::DeleteDead
        },
        GcStep::Report => GcStep::Finish,
        GcStep::DeleteDead => if below_limit {
            GcStep::DeleteUnknown
        } else {
            GcStep::CleanLinks
        },
        GcStep::DeleteUnknown => GcStep::CleanLinks,
        GcStep::CleanLinks => if no_vacuum {
            GcStep::Finish
        } else {
            GcStep::Vacuum
        },
        GcStep::Vacuum => GcStep::Finish,
        GcStep::Finish => GcStep::Finish,
    }
}

/// The first step of a collection.
pub fn first_step(opts: &GcOptions) -> (r: GcStep)
    ensures
        r == first(opts.dry_run),
{
    if opts.dry_run {
        GcStep::TakeLock
    } else {
        GcStep::FreeReserve
    }
}

/// The step of a collection that follows `step`, after `freed` bytes have been
/// freed.
pub fn next_step(step: GcStep, opts: &GcOptions, freed: u64) -> (r: GcStep)
    ensures
        r == following(
            step,
            opts.dry_run,
            opts.no_vacuum,
            freed < gc::freed_limit(opts.max_freed),
        ),
{
    match step {
        GcStep::FreeReserve => GcStep::TakeLock,
        GcStep::TakeLock => {
            if opts.dry_run {
                GcStep::ServeEarly
            } else {
                GcStep::MakeWritable
            }
        },
        GcStep::MakeWritable => GcStep::ServeEarly,
        GcStep::ServeEarly => GcStep::LoadGraph,
        GcStep::LoadGraph => GcStep::ServeGraph,
        GcStep::ServeGraph => GcStep::FindRoots,
        GcStep::FindRoots => {
            if opts.dry_run {
                GcStep::Report
            } else {
                GcStep::DeleteDead
            }
        },
        GcStep::Report => GcStep::Finish,
        GcStep::DeleteDead => {
            let max: u64 = match opts.max_freed {
                Some(max) => max,
                None => u64::MAX,
            };
            if freed < max {
                GcStep::DeleteUnknown
            } else {
                GcStep::CleanLinks
            }
        },
        GcStep::DeleteUnknown => GcStep::CleanLinks,
        GcStep::CleanLinks => {
            if opts.no_vacuum {
                GcStep::Finish
            } else {
                GcStep::Vacuum
            }
        },
        GcStep::Vacuum => GcStep::Finish,
        GcStep::Finish => GcStep::Finish,
    }
}

/// The steps come in a fixed order: the lock before the roots, the socket
/// before the graph, the roots before any deletion.
pub proof fn law_steps_go_forward(step: GcStep, dry_run: bool, no_vacuum: bool, below_limit: bool)
    ensures
        step != GcStep::Finish ==> step_rank(step) < step_rank(
            following(step, dry_run, no_vacuum, below_limit),
        ),
        following(GcStep::Finish, dry_run, no_vacuum, below_limit) == GcStep::Finish,
{
}

/// A step that changes the store, its database or its files.
pub open spec fn changes_store(step: GcStep) -> bool {
    step == GcStep::FreeReserve || step == GcStep::MakeWritable || step == GcStep::DeleteDead
        || step == GcStep::DeleteUnknown || step == GcStep::CleanLinks || step == GcStep::Vacuum
}

/// A dry run never comes to a step that changes the store.
pub proof fn law_dry_run_changes_nothing(step: GcStep, no_vacuum: bool, below_limit: bool)
    ensures
        !changes_store(first(true)),
        !changes_store(step) ==> !changes_store(following(step, true, no_vacuum, below_limit)),
{
}

/// No step is left out without a reason: a dry run passes over the steps that
/// change the store and nothing else, and a real collection over the report,
/// over the unknown entries once enough has been freed, and over the vacuum if
/// that is not wanted. Only a dry run comes to the report.
pub proof fn law_no_step_is_left_out(
    step: GcStep,
    dry_run: bool,
    no_vacuum: bool,
    below_limit: bool,
    between: GcStep,
)
    requires
        step == GcStep::Report ==> dry_run,
    ensures
        step_rank(step) < step_rank(between) < step_rank(
            following(step, dry_run, no_vacuum, below_limit),
        ) ==> if dry_run {
            changes_store(between)
        } else {
            ||| between == GcStep::Report
            ||| between == GcStep::DeleteUnknown && !below_limit
            ||| between == GcStep::Vacuum && no_vacuum
        },
        step_rank(between) < step_rank(first(dry_run)) ==> dry_run && changes_store(between),
        !dry_run ==> following(step, dry_run, no_vacuum, below_limit) != GcStep::Report,
        !below_limit ==> following(step, dry_run, no_vacuum, below_limit) != GcStep::DeleteUnknown,
        no_vacuum ==> following(step, dry_run, no_vacuum, below_limit) != GcStep::Vacuum,
{
}

/// A dry run can do without the socket; a real collection cannot.
pub fn socket_failure_is_fatal(opts: &GcOptions) -> (r: bool)
    ensures
        r == !opts.dry_run,
{
    !opts.dry_run
}

/// What a collection keeps, and which entries of the store directory the
/// database does not know.
pub struct Plan {
    /// The roots and what they keep alive.
    pub liveness: Liveness,
    /// What the temp roots of running builds keep.
    pub temp: TempRootSet,
    /// Entries of the store directory that are garbage.
    pub unknown: Vec<Vec<u8>>,
}

/// `m` is a root: found, received early, held by a running build or registered
/// lately.
pub open spec fn is_root(
    graph: StoreGraph,
    known: Map<Seq<char>, u32>,
    found: Seq<u32>,
    early: Seq<u32>,
    temp_roots: Seq<Seq<char>>,
    keep_recent_after: Option<i64>,
    m: u32,
) -> bool {
    ||| found.contains(m)
    ||| early.contains(m)
    ||| exists|b: Seq<char>| #[trigger]
        gc::is_temp_root(temp_roots, graph.store_prefix@, b) && known.contains_key(b) && known[b]
            == m
    ||| gc::is_recent(graph.registration_times@, keep_recent_after, m)
}

/// Decide what a collection keeps and what is garbage. Refuses to collect a
/// store directory that matches no path of the database.
pub fn plan_collection(
    graph: &StoreGraph,
    idx: &BasenameIndex,
    found: &[u32],
    early: &[u32],
    temp_roots: &[String],
    entries: &[Vec<u8>],
    keep_recent_after: Option<i64>,
) -> (r: Result<Plan, GcRefusal>)
    requires
        graph.wf(),
        idx.indexes(graph.paths@, graph.store_prefix@),
        graph::nodes_below(found@, graph.size()),
        graph::nodes_below(early@, graph.size()),
    ensures
        r is Err <==> graph.size() > 0 && forall|i: int|
            0 <= i < graph.size() ==> !text::starts_with(
                (#[trigger] graph.paths@[i])@,
                graph.store_prefix@,
            ),
        r matches Err(GcRefusal::StoreDirMismatch(path)) ==> path@ == graph.paths@[0]@,
        r matches Ok(plan) ==> {
            &&& plan.temp.describes(text::views(temp_roots@), graph.store_prefix@, idx.map@)
            &&& forall|m: u32| #[trigger]
                plan.liveness.roots@.contains(m) <==> is_root(
                    *graph,
                    idx.map@,
                    found@,
                    early@,
                    text::views(temp_roots@),
                    keep_recent_after,
                    m,
                )
            &&& plan.liveness.alive@.len() == graph.size()
            &&& forall|m: u32|
                m < graph.size() ==> (#[trigger] plan.liveness.alive@[m as int] <==> graph.live(
                    plan.liveness.roots@,
                    m,
                ))
            &&& graph.closed(plan.liveness.alive@)
            &&& paths::raw_views(plan.unknown@) == paths::raw_views(entries@).filter(
                |raw: Seq<u8>|
                    gc::is_unknown_raw(
                        raw,
                        idx.map@,
                        plan.temp.basenames@,
                        plan.temp.hashes@,
                    ),
            )
            &&& forall|m: u32|
                found@.contains(m) || early@.contains(m) ==> #[trigger]
                plan.liveness.roots@.contains(m)
            &&& forall|b: Seq<char>|
                text::views(temp_roots@).contains(graph.store_prefix@ + b) && #[trigger]
                idx.map@.contains_key(b) ==> plan.liveness.roots@.contains(idx.map@[b])
            &&& keep_recent_after matches Some(c) ==> forall|m: u32|
                m < graph.size() && #[trigger] graph.registration_times@[m as int] >= c
                    ==> plan.liveness.roots@.contains(m) && plan.liveness.alive@[m as int]
            &&& forall|m: u32| #[trigger]
                plan.liveness.roots@.contains(m) ==> {
                    ||| found@.contains(m)
                    ||| early@.contains(m)
                    ||| exists|b: Seq<char>|
                        text::views(temp_roots@).contains(graph.store_prefix@ + b) && #[trigger]
                        idx.map@.contains_key(b) && idx.map@[b] == m
                    ||| keep_recent_after is Some && graph.registration_times@[m as int]
                        >= keep_recent_after->0
                }
            &&& forall|m: u32| #[trigger]
                plan.liveness.roots@.contains(m) ==> m < graph.size()
                    && plan.liveness.alive@[m as int]
        },
{
    match gc::check_store_dir(graph, idx) {
        Err(refusal) => {
            return Err(refusal);
        },
        Ok(()) => {},
    }
    let temp = gc::classify_temp_roots(temp_roots, idx);
    proof {
        assert forall|j: int| 0 <= j < temp.idxs@.len() implies #[trigger] temp.idxs@[j]
            < graph.size() by {
            assert(temp.idxs@.contains(temp.idxs@[j]));
            let b = choose|b: Seq<char>| #[trigger]
                gc::is_temp_root(text::views(temp_roots@), graph.store_prefix@, b)
                    && idx.map@.contains_key(b) && idx.map@[b] == temp.idxs@[j];
            assert(graph::last_named(
                graph.paths@,
                graph.store_prefix@,
                b,
                idx.map@[b] as int,
            ));
        }
    }
    let liveness = gc::compute_liveness(graph, found, early, &temp.idxs, keep_recent_after);
    let unknown = gc::unknown_on_disk(entries, idx, &temp);
    proof {
        gc::law_alive_is_closed(*graph, liveness.roots@, liveness.alive@);
        let named = text::views(temp_roots@);
        assert forall|b: Seq<char>|
            named.contains(graph.store_prefix@ + b) && #[trigger] idx.map@.contains_key(
                b,
            ) implies liveness.roots@.contains(idx.map@[b]) by {
            gc::law_temp_roots_are_named_in_full(named, graph.store_prefix@, b);
            assert(gc::is_temp_root(named, graph.store_prefix@, b));
            assert(temp.idxs@.contains(idx.map@[b]));
        }
        assert forall|m: u32| #[trigger] liveness.roots@.contains(m) implies {
            ||| found@.contains(m)
            ||| early@.contains(m)
            ||| exists|b: Seq<char>|
                named.contains(graph.store_prefix@ + b) && #[trigger] idx.map@.contains_key(b)
                    && idx.map@[b] == m
            ||| keep_recent_after is Some && graph.registration_times@[m as int]
                >= keep_recent_after->0
        } by {
            if temp.idxs@.contains(m) {
                let b = choose|b: Seq<char>| #[trigger]
                    gc::is_temp_root(named, graph.store_prefix@, b) && idx.map@.contains_key(b)
                        && idx.map@[b] == m;
                gc::law_temp_roots_are_named_in_full(named, graph.store_prefix@, b);
                assert(idx.map@.contains_key(b));
            }
        }
    }
    Ok(Plan { liveness, temp, unknown })
}

/// Whatever a root entry points to, and all that it references directly or
/// through others, is alive.
pub proof fn law_rooted_paths_stay(
    g: StoreGraph,
    entries: Seq<RootEntry>,
    i: int,
    dir: Seq<char>,
    known: Map<Seq<char>, u32>,
    roots: Seq<u32>,
    alive: Seq<bool>,
    node: u32,
    m: u32,
)
    requires
        0 <= i < entries.len(),
        roots::node_of_entry(entries[i], dir, known, g.store_prefix@) == Some(node),
        forall|n: u32|
            roots::nodes_of_entries(entries, dir, known, g.store_prefix@).contains(n)
                ==> #[trigger] roots.contains(n),
        alive.len() == g.size(),
        forall|k: u32| k < g.size() ==> (#[trigger] alive[k as int] <==> g.live(roots, k)),
        m < g.size(),
        g.reaches(node, m),
    ensures
        alive[m as int],
{
    roots::law_entries_are_roots(entries, i, dir, known, g.store_prefix@);
    assert(roots.contains(node));
    assert(g.live(roots, m));
}

/// A store path that a living process has registered stays: as a root if the
/// graph knows it, by its name otherwise. `contents` is what the process had
/// registered before.
pub proof fn law_registered_paths_stay(
    g: StoreGraph,
    known: Map<Seq<char>, u32>,
    found: Seq<u32>,
    early: Seq<u32>,
    keep_recent_after: Option<i64>,
    contents: Seq<u8>,
    name: Seq<char>,
    temp_roots: Seq<Seq<char>>,
    temp: TempRootSet,
)
    requires
        roots::terminated_and_rest(contents).1.len() == 0,
        ({
            let path = utf8::encode_utf8(g.store_prefix@ + name);
            &&& g.store_prefix@.len() + name.len() > 0
            &&& forall|i: int| 0 <= i < path.len() ==> #[trigger] path[i] != 0
            &&& forall|r: Seq<char>|
                roots::temp_roots_in(contents + path.push(0u8)).contains(r)
                    ==> #[trigger] temp_roots.contains(r)
        }),
        temp.describes(temp_roots, g.store_prefix@, known),
    ensures
        known.contains_key(name) ==> is_root(
            g,
            known,
            found,
            early,
            temp_roots,
            keep_recent_after,
            known[name],
        ),
        !gc::is_unknown(name, known, temp.basenames@, temp.hashes@),
{
    let path = g.store_prefix@ + name;
    temp_roots::law_written_root_is_read_back(contents, path);
    let all = roots::temp_roots_in(contents + utf8::encode_utf8(path).push(0u8));
    assert(all.last() == path);
    assert(all.contains(path));
    assert(temp_roots.contains(path));
    let k = choose|k: int| 0 <= k < temp_roots.len() && temp_roots[k] == path;
    graph::lemma_prefix_joins(path, g.store_prefix@, name);
    assert(text::after_prefix(temp_roots[k], g.store_prefix@) == Some(name));
    assert(gc::is_temp_root(temp_roots, g.store_prefix@, name));
    gc::law_kept_names_stay(temp, temp_roots, g.store_prefix@, known, name);
}

/// A root that was received before the graph was read is kept: a known path as
/// a root, any other name by its protection.
pub proof fn law_early_roots_stay(
    v: live_set::LiveView,
    names: Seq<Seq<char>>,
    known: Map<Seq<char>, u32>,
    name: Seq<char>,
)
    requires
        names.contains(name),
    ensures
        known.contains_key(name) ==> gc::known_nodes(names, known).contains(known[name]),
        !known.contains_key(name) ==> gc::protect_unknown(
            v,
            names,
            known,
        ).protected_unknown.contains(name),
    decreases names.len(),
{
    let init = names.drop_last();
    let last = names.last();
    let k = choose|k: int| 0 <= k < names.len() && names[k] == name;
    let nodes = gc::known_nodes(names, known);
    let w = gc::protect_unknown(v, init, known);
    if k == names.len() - 1 {
        if known.contains_key(name) {
            assert(nodes[nodes.len() - 1] == known[name]);
        } else {
            text_set::lemma_with_item(w.protected_unknown, name, name);
        }
    } else {
        assert(init[k] == name);
        law_early_roots_stay(v, init, known, name);
        if known.contains_key(name) {
            let rest = gc::known_nodes(init, known);
            let j = choose|j: int| 0 <= j < rest.len() && rest[j] == known[name];
            assert(nodes[j] == known[name]);
        } else {
            text_set::lemma_with_item(w.protected_unknown, last, name);
        }
    }
}

/// The nodes of a chunk that were protected before their turn came.
pub open spec fn passed_over(before: live_set::LiveView, chunk: Seq<u32>) -> Seq<u32> {
    chunk.filter(|n: u32| before.protected[n as int])
}

/// The other nodes of a chunk.
pub open spec fn unprotected(before: live_set::LiveView, chunk: Seq<u32>) -> Seq<u32> {
    chunk.filter(|n: u32| !before.protected[n as int])
}

/// The nodes of a chunk that are claimed for deletion: those that are not
/// protected and that nothing protected in the chunk reaches.
pub open spec fn claimed_of(
    g: StoreGraph,
    before: live_set::LiveView,
    chunk: Seq<u32>,
) -> Seq<u32> {
    unprotected(before, chunk).filter(|n: u32| !g.live(passed_over(before, chunk), n))
}

/// The state once the nodes of a chunk have been claimed: these are pending, and
/// all else is as it was, but that no node released again is pending.
pub open spec fn after_claim(
    g: StoreGraph,
    before: live_set::LiveView,
    chunk: Seq<u32>,
) -> live_set::LiveView {
    let free = unprotected(before, chunk);
    let released = free.filter(|n: u32| g.live(passed_over(before, chunk), n));
    before.with_pending(
        before.pending_nodes.union(free.to_set()).difference(released.to_set()),
    )
}

/// The deletion of dead paths under way.
pub struct DeletionRun {
    order: Vec<u32>,
    acyclic: usize,
    cursor: usize,
    freed: u64,
    deleted: u64,
    alive: Ghost<Seq<bool>>,
}

impl DeletionRun {
    /// The run follows a deletion order and stands where it is safe to stop.
    pub closed spec fn wf(&self, g: StoreGraph) -> bool {
        &&& self.alive@.len() == g.size()
        &&& deletion::is_deletion_order(g, self.alive@, self.order@, self.acyclic as int)
        &&& self.cursor <= self.acyclic || self.cursor == self.order@.len()
    }

    /// The nodes that stay.
    pub closed spec fn alive(&self) -> Seq<bool> {
        self.alive@
    }

    /// The nodes in the order of their deletion.
    pub closed spec fn order(&self) -> Seq<u32> {
        self.order@
    }

    /// How many of them precede those that go as a whole.
    pub closed spec fn acyclic(&self) -> int {
        self.acyclic as int
    }

    /// How many of them have had their turn.
    pub closed spec fn passed(&self) -> int {
        self.cursor as int
    }

    /// Bytes freed so far.
    pub closed spec fn freed_bytes(&self) -> u64 {
        self.freed
    }

    /// Paths deleted so far.
    pub closed spec fn deleted_paths(&self) -> u64 {
        self.deleted
    }

    /// Begin to delete the paths of `graph` that are not alive.
    pub fn start(graph: &StoreGraph, alive: &[bool]) -> (r: DeletionRun)
        requires
            graph.wf(),
            alive@.len() == graph.size(),
        ensures
            r.wf(*graph),
            r.alive() == alive@,
            deletion::is_deletion_order(*graph, alive@, r.order(), r.acyclic()),
            r.passed() == 0,
            r.freed_bytes() == 0,
            r.deleted_paths() == 0,
    {
        let (order, acyclic) = deletion::deletion_order(graph, alive);
        DeletionRun { order, acyclic, cursor: 0, freed: 0, deleted: 0, alive: Ghost(alive@) }
    }

    /// Bytes freed so far.
    pub fn freed(&self) -> (r: u64)
        ensures
            r == self.freed_bytes(),
    {
        self.freed
    }

    /// Paths deleted so far.
    pub fn deleted(&self) -> (r: u64)
        ensures
            r == self.deleted_paths(),
    {
        self.deleted
    }

    /// How many paths there are to delete in all.
    pub fn total(&self) -> (r: usize)
        ensures
            r == self.order().len(),
    {
        self.order.len()
    }

    /// Claim the next chunk of dead paths. `None` when nothing is left or enough
    /// has been freed. The claimed nodes are marked pending, so that a client
    /// that asks for one waits until it is gone; nodes protected meanwhile, and
    /// what they reach, are passed over. The rows of the claimed nodes are to be
    /// invalidated before anything is unlinked.
    pub fn claim_chunk(
        &mut self,
        graph: &StoreGraph,
        opts: &GcOptions,
        live: &mut LiveSet,
    ) -> (r: Option<Vec<u32>>)
        requires
            graph.wf(),
            old(self).wf(*graph),
            old(live).wf(),
            old(live)@.protected.len() == graph.size(),
        ensures
            final(self).wf(*graph),
            final(self).alive() == old(self).alive(),
            final(live).wf(),
            final(self).order() == old(self).order(),
            final(self).acyclic() == old(self).acyclic(),
            final(self).freed_bytes() == old(self).freed_bytes(),
            old(live)@.leads_to(final(live)@),
            r is None <==> old(self).passed() == old(self).order().len() || old(self).freed_bytes()
                >= gc::freed_limit(opts.max_freed),
            r is None ==> final(self).passed() == old(self).passed() && final(live)@ == old(live)@
                && final(self).deleted_paths() == old(self).deleted_paths(),
            r matches Some(claimed) ==> {
                let chunk = old(self).order().subrange(old(self).passed(), final(self).passed());
                let before = old(live)@;
                &&& gc::is_chunk(
                    old(self).order(),
                    old(self).acyclic(),
                    graph.nar_sizes@,
                    old(self).passed(),
                    gc::freed_limit(opts.max_freed) - old(self).freed_bytes(),
                    gc::chunk_limit(opts.chunk_size),
                    final(self).passed(),
                )
                &&& old(self).passed() < final(self).passed() <= final(self).order().len()
                &&& claimed@ == claimed_of(*graph, before, chunk)
                &&& before.closed_in(*graph) ==> claimed@ == unprotected(before, chunk)
                &&& final(live)@ == after_claim(*graph, before, chunk)
                &&& before.closed_in(*graph) ==> final(live)@.closed_in(*graph)
                &&& final(self).deleted_paths() == old(self).deleted_paths().wrapping_add(
                    claimed@.len() as u64,
                )
            },
    {
        let start: usize = self.cursor;
        proof {
            assert forall|i: int| 0 <= i < self.order@.len() implies #[trigger] self.order@[i]
                < graph.nar_sizes@.len() by {
                assert(self.order@.contains(self.order@[i]));
            }
        }
        match gc::next_chunk(
            &self.order,
            self.acyclic,
            &graph.nar_sizes,
            start,
            self.freed,
            opts,
        ) {
            None => None,
            Some(end) => {
                let chunk = vstd::slice::slice_subrange(self.order.as_slice(), start, end);
                let ghost before = live@;
                let ghost free = |n: u32| !before.protected[n as int];
                let ghost kept = |n: u32| before.protected[n as int];
                proof {
                    assert forall|i: int| 0 <= i < chunk@.len() implies #[trigger] chunk@[i]
                        < graph.size() by {
                        assert(chunk@[i] == self.order@[start + i]);
                    }
                }
                let (claimed, skipped) = live.claim_nodes(chunk);
                proof {
                    lemma_filter_below(chunk@, free, graph.size());
                    lemma_filter_below(chunk@, kept, graph.size());
                    if before.closed_in(*graph) {
                        live_set::law_settling_releases_nothing(before, *graph, chunk@);
                    }
                }
                let ghost mid = live@;
                let r = live.settle_claim(graph, claimed, &skipped);
                proof {
                    live_set::law_leads_to_is_a_preorder(before, mid, live@);
                }
                self.cursor = end;
                self.deleted = self.deleted.wrapping_add(r.len() as u64);
                Some(r)
            },
        }
    }

    /// The unlink of a claimed node is over; it freed this many bytes. After a
    /// failure the row is gone all the same, and the leftover is found as
    /// unknown by the next collection.
    pub fn finish_node(&mut self, node: u32, freed: Option<u64>, live: &mut LiveSet)
        requires
            old(live).wf(),
        ensures
            final(live).wf(),
            final(self).order() == old(self).order(),
            final(self).acyclic() == old(self).acyclic(),
            final(self).passed() == old(self).passed(),
            final(self).alive() == old(self).alive(),
            forall|g: StoreGraph| #[trigger] old(self).wf(g) ==> final(self).wf(g),
            final(self).deleted_paths() == old(self).deleted_paths(),
            final(self).freed_bytes() == match freed {
                Some(n) => old(self).freed_bytes().wrapping_add(n),
                None => old(self).freed_bytes(),
            },
            final(live)@ == old(live)@.with_pending(old(live)@.pending_nodes.remove(node)),
            old(live)@.leads_to(final(live)@),
    {
        if let Some(n) = freed {
            self.freed = self.freed.wrapping_add(n);
        }
        live.end_delete_node(node);
    }
}

proof fn lemma_filter_below(s: Seq<u32>, p: spec_fn(u32) -> bool, n: int)
    requires
        graph::nodes_below(s, n),
    ensures
        graph::nodes_below(s.filter(p), n),
{
    let t = s.filter(p);
    assert forall|i: int| 0 <= i < t.len() implies #[trigger] t[i] < n by {
        s.lemma_filter_contains_rev(p, t[i]);
        let j = choose|j: int| 0 <= j < s.len() && s[j] == t[i];
        assert(s[j] < n);
    }
}

/// A claimed node is pending, and it is not protected.
pub proof fn law_claimed_nodes_are_pending(
    g: StoreGraph,
    before: live_set::LiveView,
    chunk: Seq<u32>,
    node: u32,
)
    requires
        claimed_of(g, before, chunk).contains(node),
    ensures
        chunk.contains(node),
        !before.protected[node as int],
        after_claim(g, before, chunk).pending_nodes.contains(node),
{
    let free = |n: u32| !before.protected[n as int];
    let skipped = passed_over(before, chunk);
    let stays = |n: u32| !g.live(skipped, n);
    let goes = |n: u32| g.live(skipped, n);
    let all = unprotected(before, chunk);
    all.lemma_filter_contains_rev(stays, node);
    chunk.lemma_filter_contains_rev(free, node);
    if all.filter(goes).contains(node) {
        all.lemma_filter_contains_rev(goes, node);
    }
}

/// A node of a chunk is claimed exactly if it is not protected and no protected
/// node of the chunk reaches it. What is claimed becomes pending, what is passed
/// over does not stay so, and all else is pending if it was.
pub proof fn law_what_is_claimed(
    g: StoreGraph,
    before: live_set::LiveView,
    chunk: Seq<u32>,
    node: u32,
)
    ensures
        claimed_of(g, before, chunk).contains(node) <==> {
            &&& chunk.contains(node)
            &&& !before.protected[node as int]
            &&& forall|p: u32| #[trigger]
                chunk.contains(p) && before.protected[p as int] ==> !g.reaches(p, node)
        },
        after_claim(g, before, chunk).pending_nodes.contains(node) <==> if chunk.contains(node)
            && !before.protected[node as int] {
            claimed_of(g, before, chunk).contains(node)
        } else {
            before.pending_nodes.contains(node)
        },
        after_claim(g, before, chunk).protected == before.protected,
        after_claim(g, before, chunk).protected_unknown == before.protected_unknown,
{
    let free = |n: u32| !before.protected[n as int];
    let kept = |n: u32| before.protected[n as int];
    let skipped = passed_over(before, chunk);
    let stays = |n: u32| !g.live(skipped, n);
    let goes = |n: u32| g.live(skipped, n);
    let all = unprotected(before, chunk);
    lemma_filter_has(chunk, free, node);
    lemma_filter_has(all, stays, node);
    lemma_filter_has(all, goes, node);
    assert forall|p: u32| #[trigger]
        skipped.contains(p) <==> chunk.contains(p) && before.protected[p as int] by {
        lemma_filter_has(chunk, kept, p);
    }
    if g.live(skipped, node) {
        let p = choose|p: u32| #[trigger] skipped.contains(p) && g.reaches(p, node);
        assert(chunk.contains(p));
    }
    if exists|p: u32| #[trigger]
        chunk.contains(p) && before.protected[p as int] && g.reaches(p, node) {
        let p = choose|p: u32| #[trigger]
            chunk.contains(p) && before.protected[p as int] && g.reaches(p, node);
        assert(skipped.contains(p));
    }
}

/// What can happen between two states but for the end of the deletion of `node`:
/// a client protects a closure or a name, other nodes are claimed, the deletion
/// of another node ends, that of a node or of a name begins, or that of a name
/// ends.
pub open spec fn other_step(
    g: StoreGraph,
    a: live_set::LiveView,
    b: live_set::LiveView,
    node: u32,
) -> bool {
    ||| exists|root: u32| b == #[trigger] a.with_protected_closure(g, root)
    ||| exists|name: Seq<char>| b == #[trigger] a.with_protected_name(name)
    ||| exists|chunk: Seq<u32>| !chunk.contains(node) && b == #[trigger] after_claim(g, a, chunk)
    ||| exists|other: u32|
        other != node && b == a.with_pending(#[trigger] a.pending_nodes.remove(other))
    ||| exists|other: u32| b == a.with_pending(#[trigger] a.pending_nodes.insert(other))
    ||| exists|names: Set<Seq<char>>| b == #[trigger] a.with_pending_unknown(names)
}

/// A node that is pending stays so until its own deletion ends.
proof fn lemma_pending_stays(
    g: StoreGraph,
    states: Seq<live_set::LiveView>,
    node: u32,
    i: int,
    j: int,
)
    requires
        0 <= i <= j < states.len(),
        states[i].pending_nodes.contains(node),
        forall|k: int|
            0 <= k < states.len() - 1 ==> other_step(g, #[trigger] states[k], states[k + 1], node),
    ensures
        states[j].pending_nodes.contains(node),
    decreases j,
{
    if i < j {
        lemma_pending_stays(g, states, node, i, j - 1);
        let a = states[j - 1];
        let b = states[j - 1 + 1];
        assert(other_step(g, a, b, node));
        if exists|chunk: Seq<u32>|
            !chunk.contains(node) && b == #[trigger] after_claim(g, a, chunk) {
            let chunk = choose|chunk: Seq<u32>|
                !chunk.contains(node) && b == #[trigger] after_claim(g, a, chunk);
            let goes = |n: u32| g.live(passed_over(a, chunk), n);
            let free = |n: u32| !a.protected[n as int];
            let all = unprotected(a, chunk);
            if all.filter(goes).contains(node) {
                all.lemma_filter_contains_rev(goes, node);
                chunk.lemma_filter_contains_rev(free, node);
            }
        }
    }
}

/// A client that asks for a path which reaches a claimed node is not acked
/// before the deletion of that node has ended: whenever it asks after the claim,
/// and whatever else happens meanwhile, there is a conflict for it. `states` run
/// from the claim up to the end of the node's deletion, the client asks in
/// `states[i]`, and `wait_for` is what `begin_protect` gives it.
pub proof fn law_clients_wait_for_claimed_nodes(
    g: StoreGraph,
    before: live_set::LiveView,
    chunk: Seq<u32>,
    node: u32,
    states: Seq<live_set::LiveView>,
    i: int,
    j: int,
    root: u32,
    wait_for: Seq<u32>,
    basename: Seq<char>,
)
    requires
        claimed_of(g, before, chunk).contains(node),
        0 <= i <= j < states.len(),
        states[0] == after_claim(g, before, chunk),
        forall|k: int|
            0 <= k < states.len() - 1 ==> other_step(g, #[trigger] states[k], states[k + 1], node),
        forall|m: u32| #[trigger]
            wait_for.contains(m) <==> g.reaches(root, m) && states[i].pending_nodes.contains(m),
        g.reaches(root, node),
    ensures
        live_set::in_conflict(states[j], wait_for, basename),
{
    law_claimed_nodes_are_pending(g, before, chunk, node);
    lemma_pending_stays(g, states, node, 0, i);
    lemma_pending_stays(g, states, node, i, j);
    assert(wait_for.contains(node));
    let k = choose|k: int| 0 <= k < wait_for.len() && wait_for[k] == node;
    assert(states[j].pending_nodes.contains(wait_for[k]));
}

/// No node has its turn twice, so that no later claim touches a claimed one.
pub proof fn law_chunks_do_not_overlap(
    g: StoreGraph,
    alive: Seq<bool>,
    order: Seq<u32>,
    acyclic: int,
    a: int,
    b: int,
    c: int,
    d: int,
    node: u32,
)
    requires
        deletion::is_deletion_order(g, alive, order, acyclic),
        0 <= a <= b <= c <= d <= order.len(),
        order.subrange(a, b).contains(node),
    ensures
        !order.subrange(c, d).contains(node),
{
    let early = order.subrange(a, b);
    let late = order.subrange(c, d);
    let i = choose|i: int| 0 <= i < early.len() && early[i] == node;
    if late.contains(node) {
        let j = choose|j: int| 0 <= j < late.len() && late[j] == node;
        assert(order[a + i] == order[c + j]);
    }
}

/// A chunk has no more than the full number of paths, unless it is the part that
/// goes as a whole, which is the last one; what is claimed of it is part of it.
pub proof fn law_chunks_are_bounded(
    g: StoreGraph,
    order: Seq<u32>,
    acyclic: int,
    sizes: Seq<u64>,
    cursor: int,
    remaining: int,
    chunk_size: Option<usize>,
    end: int,
    before: live_set::LiveView,
)
    requires
        0 <= cursor <= end <= order.len(),
        gc::is_chunk(
            order,
            acyclic,
            sizes,
            cursor,
            remaining,
            gc::chunk_limit(chunk_size),
            end,
        ),
    ensures
        cursor < acyclic ==> end - cursor <= gc::chunk_limit(chunk_size) && end <= acyclic,
        cursor >= acyclic ==> end == order.len(),
        claimed_of(g, before, order.subrange(cursor, end)).len() <= end - cursor,
{
    if cursor < acyclic && cursor < end - 1 {
        assert(gc::size_sum(order, sizes, cursor, end - 1) < remaining);
    }
    let chunk = order.subrange(cursor, end);
    let skipped = passed_over(before, chunk);
    lemma_filter_shorter(chunk, |n: u32| !before.protected[n as int]);
    lemma_filter_shorter(unprotected(before, chunk), |n: u32| !g.live(skipped, n));
}

proof fn lemma_filter_shorter(s: Seq<u32>, p: spec_fn(u32) -> bool)
    ensures
        s.filter(p).len() <= s.len(),
{
    s.lemma_filter_len(p);
}

/// The transactions of a deletion so far, one for each chunk: `claimed` is what
/// each removes, `cuts` where the chunks end, and `turns` the moments, in the
/// history `states` of the live set, at which they were claimed. `remaining` is
/// what was left to be freed at each.
pub open spec fn is_run(
    g: StoreGraph,
    order: Seq<u32>,
    acyclic: int,
    chunk_size: Option<usize>,
    states: Seq<live_set::LiveView>,
    turns: Seq<int>,
    cuts: Seq<int>,
    remaining: Seq<int>,
    claimed: Seq<Seq<u32>>,
) -> bool {
    &&& turns.len() == claimed.len()
    &&& remaining.len() == claimed.len()
    &&& cuts.len() == claimed.len() + 1
    &&& cuts[0] == 0
    &&& forall|a: int, b: int|
        0 <= a <= b < turns.len() ==> 0 <= #[trigger] turns[a] <= #[trigger] turns[b]
            < states.len()
    &&& forall|k: int|
        0 <= k < claimed.len() ==> {
            &&& 0 <= cuts[k] < cuts[k + 1] <= order.len()
            &&& gc::is_chunk(
                order,
                acyclic,
                g.nar_sizes@,
                cuts[k],
                remaining[k],
                gc::chunk_limit(chunk_size),
                cuts[k + 1],
            )
            &&& #[trigger] claimed[k] == claimed_of(
                g,
                states[turns[k]],
                order.subrange(cuts[k], cuts[k + 1]),
            )
        }
}

/// The first `k` transactions remove node `n`.
pub open spec fn is_removed(claimed: Seq<Seq<u32>>, k: int, n: u32) -> bool {
    exists|j: int| 0 <= j < k && (#[trigger] claimed[j]).contains(n)
}

/// Chunks follow each other, and end where it is safe to stop.
proof fn lemma_cuts(
    g: StoreGraph,
    order: Seq<u32>,
    acyclic: int,
    chunk_size: Option<usize>,
    states: Seq<live_set::LiveView>,
    turns: Seq<int>,
    cuts: Seq<int>,
    remaining: Seq<int>,
    claimed: Seq<Seq<u32>>,
    i: int,
    k: int,
)
    requires
        is_run(g, order, acyclic, chunk_size, states, turns, cuts, remaining, claimed),
        0 <= i <= k <= claimed.len(),
        0 <= acyclic <= order.len(),
    ensures
        0 <= cuts[i] <= cuts[k] <= order.len(),
        cuts[k] <= acyclic || cuts[k] == order.len(),
    decreases k,
{
    if k > 0 {
        assert(claimed[k - 1] == claimed_of(
            g,
            states[turns[k - 1]],
            order.subrange(cuts[k - 1], cuts[k - 1 + 1]),
        ));
        lemma_cuts(
            g,
            order,
            acyclic,
            chunk_size,
            states,
            turns,
            cuts,
            remaining,
            claimed,
            if i < k {
                i
            } else {
                k - 1
            },
            k - 1,
        );
    }
}

/// What is claimed in a chunk is in it and not protected then, and what is in it
/// and not claimed is protected then.
proof fn lemma_claimed_in_history(
    g: StoreGraph,
    states: Seq<live_set::LiveView>,
    turn: int,
    chunk: Seq<u32>,
    n: u32,
)
    requires
        g.wf(),
        live_set::is_history(g, states),
        0 <= turn < states.len(),
        graph::nodes_below(chunk, g.size()),
        n < g.size(),
    ensures
        claimed_of(g, states[turn], chunk).contains(n) <==> chunk.contains(n)
            && !states[turn].protected[n as int],
{
    live_set::law_protection_is_closed_and_stays(g, states, turn, turn, n);
    live_set::law_settling_releases_nothing(states[turn], g, chunk);
    lemma_filter_has(chunk, |m: u32| !states[turn].protected[m as int], n);
}

/// After every transaction, no path that is still valid references one that has
/// been removed, so that it is safe to stop after any of them: whatever clients
/// protected meanwhile, and whatever the roots are.
pub proof fn law_every_transaction_is_safe(
    g: StoreGraph,
    roots: Seq<u32>,
    alive: Seq<bool>,
    order: Seq<u32>,
    acyclic: int,
    chunk_size: Option<usize>,
    states: Seq<live_set::LiveView>,
    turns: Seq<int>,
    cuts: Seq<int>,
    remaining: Seq<int>,
    claimed: Seq<Seq<u32>>,
    k: int,
    valid: u32,
    removed: u32,
)
    requires
        g.wf(),
        alive.len() == g.size(),
        forall|m: u32| m < g.size() ==> (#[trigger] alive[m as int] <==> g.live(roots, m)),
        deletion::is_deletion_order(g, alive, order, acyclic),
        live_set::is_history(g, states),
        is_run(g, order, acyclic, chunk_size, states, turns, cuts, remaining, claimed),
        0 <= k <= claimed.len(),
        valid < g.size(),
        !is_removed(claimed, k, valid),
        is_removed(claimed, k, removed),
    ensures
        !g.refers(valid, removed),
{
    gc::law_alive_is_closed(g, roots, alive);
    assert forall|i: int| 0 <= i < order.len() implies #[trigger] order[i] < g.size() by {
        assert(order.contains(order[i]));
    }
    let j = choose|j: int| 0 <= j < k && (#[trigger] claimed[j]).contains(removed);
    lemma_cuts(g, order, acyclic, chunk_size, states, turns, cuts, remaining, claimed, j + 1, k);
    let late = order.subrange(cuts[j], cuts[j + 1]);
    let q = lemma_place_of_claimed(g, states, turns[j], order, cuts[j], cuts[j + 1], removed);
    if g.refers(valid, removed) {
        if !order.take(cuts[k]).contains(valid) {
            assert(order.take(cuts[k])[q] == removed);
            deletion::law_prefix_is_safe(g, alive, order, acyclic, cuts[k], valid, removed);
        } else {
            let p = choose|p: int| 0 <= p < cuts[k] && order.take(cuts[k])[p] == valid;
            assert(order[p] == valid);
            let i = lemma_chunk_of(
                g,
                order,
                acyclic,
                chunk_size,
                states,
                turns,
                cuts,
                remaining,
                claimed,
                k,
                p,
            );
            let early = order.subrange(cuts[i], cuts[i + 1]);
            assert(early[p - cuts[i]] == valid);
            lemma_below(order, cuts[i], cuts[i + 1], g.size());
            lemma_claimed_in_history(g, states, turns[i], early, valid);
            assert(!claimed[i].contains(valid));
            assert(states[turns[i]].protected[valid as int]);
            if i <= j {
                assert(turns[i] <= turns[j]);
                live_set::law_protection_is_closed_and_stays(
                    g,
                    states,
                    turns[i],
                    turns[j],
                    valid,
                );
                lemma_below(order, cuts[j], cuts[j + 1], g.size());
                lemma_claimed_in_history(g, states, turns[j], late, removed);
                assert(states[turns[j]].protected[removed as int]);
            } else {
                lemma_cuts(
                    g,
                    order,
                    acyclic,
                    chunk_size,
                    states,
                    turns,
                    cuts,
                    remaining,
                    claimed,
                    j + 1,
                    i,
                );
                deletion::law_referrer_first(g, alive, order, acyclic, p, q);
                assert(claimed[j] == claimed_of(g, states[turns[j]], late));
            }
        }
    }
}

proof fn lemma_below(order: Seq<u32>, a: int, b: int, n: int)
    requires
        0 <= a <= b <= order.len(),
        graph::nodes_below(order, n),
    ensures
        graph::nodes_below(order.subrange(a, b), n),
{
    assert forall|i: int| 0 <= i < b - a implies #[trigger] order.subrange(a, b)[i] < n by {
        assert(order.subrange(a, b)[i] == order[a + i]);
    }
}

/// The place in the order of a node that was claimed in a chunk.
proof fn lemma_place_of_claimed(
    g: StoreGraph,
    states: Seq<live_set::LiveView>,
    turn: int,
    order: Seq<u32>,
    a: int,
    b: int,
    n: u32,
) -> (q: int)
    requires
        0 <= a <= b <= order.len(),
        claimed_of(g, states[turn], order.subrange(a, b)).contains(n),
    ensures
        a <= q < b,
        order[q] == n,
{
    let chunk = order.subrange(a, b);
    law_claimed_nodes_are_pending(g, states[turn], chunk, n);
    let i = choose|i: int| 0 <= i < chunk.len() && chunk[i] == n;
    a + i
}

/// The chunk in which a place of the order had its turn.
proof fn lemma_chunk_of(
    g: StoreGraph,
    order: Seq<u32>,
    acyclic: int,
    chunk_size: Option<usize>,
    states: Seq<live_set::LiveView>,
    turns: Seq<int>,
    cuts: Seq<int>,
    remaining: Seq<int>,
    claimed: Seq<Seq<u32>>,
    k: int,
    p: int,
) -> (i: int)
    requires
        is_run(g, order, acyclic, chunk_size, states, turns, cuts, remaining, claimed),
        0 <= k <= claimed.len(),
        0 <= p < cuts[k],
    ensures
        0 <= i < k,
        cuts[i] <= p < cuts[i + 1],
        0 <= cuts[i] <= cuts[i + 1] <= order.len(),
    decreases k,
{
    assert(claimed[k - 1] == claimed_of(
        g,
        states[turns[k - 1]],
        order.subrange(cuts[k - 1], cuts[k - 1 + 1]),
    ));
    if p >= cuts[k - 1] {
        k - 1
    } else {
        lemma_chunk_of(
            g,
            order,
            acyclic,
            chunk_size,
            states,
            turns,
            cuts,
            remaining,
            claimed,
            k - 1,
            p,
        )
    }
}

/// Each transaction removes at most the full number of paths, but for one that
/// removes the part that goes as a whole, which is the last one.
pub proof fn law_transactions_are_bounded(
    g: StoreGraph,
    order: Seq<u32>,
    acyclic: int,
    chunk_size: Option<usize>,
    states: Seq<live_set::LiveView>,
    turns: Seq<int>,
    cuts: Seq<int>,
    remaining: Seq<int>,
    claimed: Seq<Seq<u32>>,
    k: int,
)
    requires
        0 <= acyclic <= order.len(),
        is_run(g, order, acyclic, chunk_size, states, turns, cuts, remaining, claimed),
        0 <= k < claimed.len(),
    ensures
        claimed[k].len() <= gc::chunk_limit(chunk_size) || (cuts[k] >= acyclic && k
            == claimed.len() - 1),
{
    assert(claimed[k] == claimed_of(
        g,
        states[turns[k]],
        order.subrange(cuts[k], cuts[k + 1]),
    ));
    law_chunks_are_bounded(
        g,
        order,
        acyclic,
        g.nar_sizes@,
        cuts[k],
        remaining[k],
        chunk_size,
        cuts[k + 1],
        states[turns[k]],
    );
    if k < claimed.len() - 1 {
        assert(claimed[k + 1] == claimed_of(
            g,
            states[turns[k + 1]],
            order.subrange(cuts[k + 1], cuts[k + 1 + 1]),
        ));
    }
}

/// The chunks of a run end at `cuts`, one after the other from the start of the
/// order to its end, and `claimed` is what is claimed of each, while the nodes
/// of `protected` are protected throughout.
pub open spec fn is_whole_run(
    g: StoreGraph,
    order: Seq<u32>,
    protected: Seq<bool>,
    states: Seq<live_set::LiveView>,
    cuts: Seq<int>,
    claimed: Seq<Seq<u32>>,
) -> bool {
    &&& cuts.len() == claimed.len() + 1
    &&& states.len() == claimed.len()
    &&& cuts[0] == 0
    &&& cuts.last() == order.len()
    &&& forall|k: int|
        0 <= k < claimed.len() ==> {
            &&& 0 <= cuts[k] <= cuts[k + 1] <= order.len()
            &&& states[k].protected == protected
            &&& #[trigger] claimed[k] == claimed_of(
                g,
                states[k],
                order.subrange(cuts[k], cuts[k + 1]),
            )
        }
}

/// What has been claimed after the first `k` chunks is what is not protected
/// among the nodes that have had their turn.
proof fn lemma_claimed_so_far(
    g: StoreGraph,
    order: Seq<u32>,
    protected: Seq<bool>,
    states: Seq<live_set::LiveView>,
    cuts: Seq<int>,
    claimed: Seq<Seq<u32>>,
    k: int,
)
    requires
        g.wf(),
        is_whole_run(g, order, protected, states, cuts, claimed),
        protected.len() == g.size(),
        g.closed(protected),
        graph::nodes_below(order, g.size()),
        0 <= k <= claimed.len(),
    ensures
        0 <= cuts[k] <= order.len(),
        claimed.take(k).flatten() == order.take(cuts[k]).filter(|n: u32| !protected[n as int]),
    decreases k,
{
    let free = |n: u32| !protected[n as int];
    if k == 0 {
        assert(claimed.take(0) =~= Seq::empty());
        assert(order.take(0) =~= Seq::empty());
        assert(Seq::<Seq<u32>>::empty().flatten() =~= Seq::<u32>::empty());
        reveal(Seq::filter);
        assert(order.take(0).filter(free) =~= Seq::<u32>::empty());
    } else {
        lemma_claimed_so_far(g, order, protected, states, cuts, claimed, k - 1);
        assert(claimed[k - 1] == claimed_of(
            g,
            states[k - 1],
            order.subrange(cuts[k - 1], cuts[k - 1 + 1]),
        ));
        let chunk = order.subrange(cuts[k - 1], cuts[k]);
        let before = states[k - 1];
        assert forall|i: int| 0 <= i < chunk.len() implies #[trigger] chunk[i] < g.size() by {
            assert(chunk[i] == order[cuts[k - 1] + i]);
        }
        live_set::law_settling_releases_nothing(before, g, chunk);
        assert(claimed[k - 1] == chunk.filter(free));
        assert(claimed.take(k) =~= claimed.take(k - 1).push(claimed[k - 1]));
        claimed.take(k - 1).lemma_flatten_push(claimed[k - 1]);
        assert(order.take(cuts[k]) =~= order.take(cuts[k - 1]) + chunk);
        Seq::filter_distributes_over_add(order.take(cuts[k - 1]), chunk, free);
    }
}

/// A collection without a limit deletes what a dry run lists: with the same
/// nodes protected, the nodes claimed by all chunks together are those that the
/// report names, each once. `dead` are the dead nodes in ascending order.
pub proof fn law_dry_run_names_what_a_run_deletes(
    g: StoreGraph,
    alive: Seq<bool>,
    order: Seq<u32>,
    acyclic: int,
    dead: Seq<u32>,
    protected: Seq<bool>,
    states: Seq<live_set::LiveView>,
    cuts: Seq<int>,
    claimed: Seq<Seq<u32>>,
)
    requires
        g.wf(),
        alive.len() == g.size(),
        protected.len() == g.size(),
        g.closed(protected),
        deletion::is_deletion_order(g, alive, order, acyclic),
        forall|i: int, j: int| 0 <= i < j < dead.len() ==> #[trigger] dead[i] < #[trigger] dead[j],
        forall|m: u32| #[trigger] dead.contains(m) <==> deletion::dead(alive, m),
        gc::listed(dead, g.nar_sizes@, protected, u64::MAX, dead.len() as int).1 < u64::MAX,
        is_whole_run(g, order, protected, states, cuts, claimed),
    ensures
        ({
            let listed = gc::listed(
                dead,
                g.nar_sizes@,
                protected,
                u64::MAX,
                dead.len() as int,
            ).0;
            &&& forall|m: u32| #[trigger]
                listed.contains(m) <==> claimed.flatten().contains(m)
            &&& listed.no_duplicates()
            &&& claimed.flatten().no_duplicates()
            &&& listed.len() == claimed.flatten().len()
        }),
{
    let free = |n: u32| !protected[n as int];
    let n = dead.len() as int;
    let listed = gc::listed(dead, g.nar_sizes@, protected, u64::MAX, n).0;
    gc::law_report_lists_all_garbage(dead, g.nar_sizes@, protected, u64::MAX, n);
    assert(dead.take(n) =~= dead);
    assert forall|i: int| 0 <= i < order.len() implies #[trigger] order[i] < g.size() by {
        assert(order.contains(order[i]));
    }
    lemma_claimed_so_far(g, order, protected, states, cuts, claimed, claimed.len() as int);
    assert(claimed.take(claimed.len() as int) =~= claimed);
    assert(order.take(order.len() as int) =~= order);
    let all = claimed.flatten();
    assert(all == order.filter(free));
    assert(listed == dead.filter(free));
    assert forall|m: u32| #[trigger] listed.contains(m) <==> all.contains(m) by {
        lemma_filter_has(dead, free, m);
        lemma_filter_has(order, free, m);
        assert(order.contains(m) <==> deletion::dead(alive, m));
        assert(dead.contains(m) <==> deletion::dead(alive, m));
    }
    assert(dead.no_duplicates());
    lemma_filter_no_duplicates(dead, free);
    lemma_filter_no_duplicates(order, free);
    listed.unique_seq_to_set();
    all.unique_seq_to_set();
    assert(listed.to_set() =~= all.to_set());
}

proof fn lemma_filter_has(s: Seq<u32>, p: spec_fn(u32) -> bool, m: u32)
    ensures
        s.filter(p).contains(m) <==> s.contains(m) && p(m),
{
    if s.filter(p).contains(m) {
        s.lemma_filter_contains_rev(p, m);
    }
    if s.contains(m) && p(m) {
        let i = choose|i: int| 0 <= i < s.len() && s[i] == m;
        s.lemma_filter_contains(p, i);
    }
}

proof fn lemma_filter_no_duplicates(s: Seq<u32>, p: spec_fn(u32) -> bool)
    requires
        s.no_duplicates(),
    ensures
        s.filter(p).no_duplicates(),
    decreases s.len(),
{
    reveal(Seq::filter);
    if s.len() > 0 {
        let init = s.drop_last();
        lemma_filter_no_duplicates(init, p);
        if init.filter(p).contains(s.last()) {
            init.lemma_filter_contains_rev(p, s.last());
        }
    }
}

/// A step in the deletion of the dead paths.
#[derive(Clone, Copy, PartialEq, Eq, Structural)]
pub enum ChunkStep {
    /// Claim the next chunk.
    Claim,
    /// Remove the rows of the claimed nodes in one transaction.
    DropRows,
    /// Unlink the claimed nodes.
    Unlink,
    /// Nothing is left to delete.
    Finish,
    /// Report the error.
    Fail,
}

/// The step that follows. `ok` tells whether a chunk was claimed, or whether the
/// rows are gone.
pub open spec fn chunk_after(step: ChunkStep, ok: bool) -> ChunkStep {
    match step {
        ChunkStep::Claim => if ok {
            ChunkStep::DropRows
        } else {
            ChunkStep::Finish
        },
        ChunkStep::DropRows => if ok {
            ChunkStep::Unlink
        } else {
            ChunkStep::Fail
        },
        ChunkStep::Unlink => ChunkStep::Claim,
        ChunkStep::Finish => ChunkStep::Finish,
        ChunkStep::Fail => ChunkStep::Fail,
    }
}

/// The step in the deletion of the dead paths that follows `step`. A path that
/// cannot be unlinked does not stop the deletion.
pub fn next_chunk_step(step: ChunkStep, ok: bool) -> (r: ChunkStep)
    ensures
        r == chunk_after(step, ok),
{
    match step {
        ChunkStep::Claim => if ok {
            ChunkStep::DropRows
        } else {
            ChunkStep::Finish
        },
        ChunkStep::DropRows => if ok {
            ChunkStep::Unlink
        } else {
            ChunkStep::Fail
        },
        ChunkStep::Unlink => ChunkStep::Claim,
        ChunkStep::Finish => ChunkStep::Finish,
        ChunkStep::Fail => ChunkStep::Fail,
    }
}

/// Paths are unlinked only once their rows are gone, so that none ever looks
/// valid after its disk entry is gone, and rows go only once their nodes are
/// claimed.
pub proof fn law_rows_go_before_disk_entries(step: ChunkStep, ok: bool)
    ensures
        chunk_after(step, ok) == ChunkStep::Unlink ==> step == ChunkStep::DropRows && ok,
        chunk_after(step, ok) == ChunkStep::DropRows ==> step == ChunkStep::Claim && ok,
        step == ChunkStep::DropRows && !ok ==> chunk_after(step, ok) == ChunkStep::Fail,
        chunk_after(ChunkStep::Fail, ok) == ChunkStep::Fail,
{
}

/// The deletion goes on until no chunk is left: what was claimed has its rows
/// removed, is unlinked, and the next chunk is claimed, however the unlinking
/// went. It finishes only where there was nothing to claim.
pub proof fn law_deletion_goes_on(step: ChunkStep, ok: bool)
    ensures
        chunk_after(chunk_after(chunk_after(ChunkStep::Claim, true), true), ok) == ChunkStep::Claim,
        chunk_after(ChunkStep::Claim, false) == ChunkStep::Finish,
        chunk_after(step, ok) == ChunkStep::Finish ==> step == ChunkStep::Finish || (step
            == ChunkStep::Claim && !ok),
        chunk_after(step, ok) == ChunkStep::Fail ==> step == ChunkStep::Fail || (step
            == ChunkStep::DropRows && !ok),
{
}

/// Two trees together have the bytes of both, and one entry has 512 bytes for
/// each of its blocks.
pub proof fn law_tree_bytes_add_up(a: Seq<u64>, b: Seq<u64>, blocks: u64)
    ensures
        tree_bytes(a + b) == tree_bytes(a) + tree_bytes(b),
        tree_bytes(seq![blocks]) == 512 * blocks,
        tree_bytes(Seq::empty()) == 0,
    decreases b.len(),
{
    assert(seq![blocks].drop_last() =~= Seq::empty());
    assert(tree_bytes(seq![blocks].drop_last()) == 0);
    if b.len() == 0 {
        assert(a + b =~= a);
    } else {
        law_tree_bytes_add_up(a, b.drop_last(), blocks);
        assert((a + b).drop_last() =~= a + b.drop_last());
    }
}

/// The bytes on disk of the entries of a tree, by their blocks.
pub open spec fn tree_bytes(blocks: Seq<u64>) -> int
    decreases blocks.len(),
{
    if blocks.len() == 0 {
        0
    } else {
        tree_bytes(blocks.drop_last()) + blocks.last() * 512
    }
}

proof fn lemma_tree_bytes_grow(blocks: Seq<u64>, i: int)
    requires
        0 <= i <= blocks.len(),
    ensures
        0 <= tree_bytes(blocks.take(i)) <= tree_bytes(blocks),
    decreases blocks.len(),
{
    if i == blocks.len() {
        assert(blocks.take(i) =~= blocks);
    }
    if blocks.len() > 0 {
        if i < blocks.len() {
            lemma_tree_bytes_grow(blocks.drop_last(), i);
            assert(blocks.drop_last().take(i) =~= blocks.take(i));
        } else {
            lemma_tree_bytes_grow(blocks.drop_last(), i - 1);
            assert(blocks.drop_last().take(i - 1) =~= blocks.drop_last());
        }
    }
}

/// The bytes that the removal of a tree frees, given the blocks of its entries.
/// `None` if they do not fit in 64 bits.
pub fn bytes_of_tree(blocks: &[u64]) -> (r: Option<u64>)
    ensures
        match r {
            Some(n) => n == tree_bytes(blocks@),
            None => tree_bytes(blocks@) > u64::MAX,
        },
{
    let mut sum: u64 = 0;
    let mut i: usize = 0;
    while i < blocks.len()
        invariant
            i <= blocks@.len(),
            sum == tree_bytes(blocks@.take(i as int)),
        decreases blocks@.len() - i,
    {
        proof {
            assert(blocks@.take(i + 1).drop_last() =~= blocks@.take(i as int));
            lemma_tree_bytes_grow(blocks@, i + 1);
        }
        let more: u64 = match blocks[i].checked_mul(512) {
            Some(n) => n,
            None => {
                return None;
            },
        };
        sum = match sum.checked_add(more) {
            Some(n) => n,
            None => {
                return None;
            },
        };
        i += 1;
    }
    assert(blocks@.take(i as int) =~= blocks@);
    Some(sum)
}

/// What is known of a store path before it is unlinked.
#[derive(Clone, Copy)]
pub enum UnlinkStat {
    /// It is gone already.
    Missing,
    /// It could not be looked at.
    Failed,
    /// A directory.
    Directory,
    /// Anything else, with its blocks on disk.
    File { blocks: u64 },
}

/// How a store path is unlinked.
#[derive(Clone, Copy, PartialEq, Eq, Structural)]
pub enum UnlinkPlan {
    /// Nothing to do, nothing freed.
    Nothing,
    /// Remove the single file; this frees so many bytes.
    RemoveFile(u64),
    /// Remove the tree, contents first.
    RemoveTree,
    /// Report the error.
    Fail,
}

/// Decide how a store path is unlinked.
pub fn plan_unlink(stat: UnlinkStat) -> (r: UnlinkPlan)
    requires
        stat matches UnlinkStat::File { blocks } ==> blocks * 512 <= u64::MAX,
    ensures
        r == match stat {
            UnlinkStat::Missing => UnlinkPlan::Nothing,
            UnlinkStat::Failed => UnlinkPlan::Fail,
            UnlinkStat::Directory => UnlinkPlan::RemoveTree,
            UnlinkStat::File { blocks } => UnlinkPlan::RemoveFile((blocks * 512) as u64),
        },
{
    match stat {
        UnlinkStat::Missing => UnlinkPlan::Nothing,
        UnlinkStat::Failed => UnlinkPlan::Fail,
        UnlinkStat::Directory => UnlinkPlan::RemoveTree,
        UnlinkStat::File { blocks } => UnlinkPlan::RemoveFile(gc::disk_bytes(blocks)),
    }
}

/// The line that sums up a collection.
pub fn summary(dry_run: bool, deleted: u64, freed: u64) -> (r: String)
    ensures
        r@ == numbers::decimal(deleted as int) + if dry_run {
            " store paths would be deleted (~"@ + size::shown(freed) + ")"@
        } else {
            " store paths deleted, "@ + size::shown(freed) + " freed"@
        },
{
    let mut s = String::new();
    numbers::push_decimal(&mut s, deleted);
    assert(s@ =~= numbers::decimal(deleted as int));
    let shown = size::format_size(freed);
    let rest = if dry_run {
        text::join3(" store paths would be deleted (~", shown.as_str(), ")")
    } else {
        text::join3(" store paths deleted, ", shown.as_str(), " freed")
    };
    s.append(rest.as_str());
    s
}

} // verus!
