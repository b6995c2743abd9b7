//! The store database: which rows make up the reference graph, and how they
//! are put together.
use crate::graph;
use crate::graph::StoreGraph;
use crate::text;
use vstd::prelude::*;

verus! {

/// Marks an id without a node.
const MISSING: u32 = u32::MAX;

/// A row of the table of valid paths.
pub struct PathRow {
    pub id: i64,
    pub path: String,
    pub nar_size: Option<i64>,
    pub registration_time: i64,
}

/// The size that a row stands for: unset and negative sizes count as zero.
pub open spec fn size_of_row(nar_size: Option<i64>) -> u64 {
    match nar_size {
        Some(n) => if n < 0 {
            0
        } else {
            n as u64
        },
        None => 0,
    }
}

/// The node of `id`: the last row with that id. Ids outside `0..=max_id` have
/// none.
pub open spec fn node_of(rows: Seq<PathRow>, max_id: i64, id: i64) -> Option<u32>
    decreases rows.len(),
{
    if rows.len() == 0 || id < 0 || id > max_id {
        None
    } else if rows.last().id == id {
        Some((rows.len() - 1) as u32)
    } else {
        node_of(rows.drop_last(), max_id, id)
    }
}

/// The edge between nodes that an edge row between ids stands for, if both
/// ids have a node.
pub open spec fn edge_of_row(rows: Seq<PathRow>, max_id: i64, row: (i64, i64)) -> Option<
    (u32, u32),
> {
    match (node_of(rows, max_id, row.0), node_of(rows, max_id, row.1)) {
        (Some(from), Some(to)) => Some((from, to)),
        _ => None,
    }
}

/// The edges that the edge rows stand for, in order. Rows with an id that has
/// no node are dropped.
pub open spec fn edges_of_rows(
    rows: Seq<PathRow>,
    max_id: i64,
    edge_rows: Seq<(i64, i64)>,
) -> Seq<(u32, u32)>
    decreases edge_rows.len(),
{
    if edge_rows.len() == 0 {
        Seq::empty()
    } else {
        let rest = edges_of_rows(rows, max_id, edge_rows.drop_last());
        match edge_of_row(rows, max_id, edge_rows.last()) {
            Some(e) => rest.push(e),
            None => rest,
        }
    }
}

proof fn lemma_node_below(rows: Seq<PathRow>, max_id: i64, id: i64)
    requires
        rows.len() < u32::MAX,
    ensures
        node_of(rows, max_id, id) matches Some(n) ==> n < rows.len(),
    decreases rows.len(),
{
    if rows.len() > 0 {
        lemma_node_below(rows.drop_last(), max_id, id);
    }
}

/// `map` holds for every id in range its node, or `MISSING`.
spec fn maps_ids(map: Seq<u32>, rows: Seq<PathRow>, max_id: i64) -> bool {
    &&& map.len() == max_id + 1
    &&& forall|id: i64|
        0 <= id <= max_id ==> #[trigger] map[id as int] == match node_of(rows, max_id, id) {
            Some(n) => n,
            None => MISSING,
        }
}

/// The node of `id`.
fn lookup(
    map: &[u32],
    id: i64,
    Ghost(rows): Ghost<Seq<PathRow>>,
    Ghost(max_id): Ghost<i64>,
) -> (r: Option<u32>)
    requires
        maps_ids(map@, rows, max_id),
        rows.len() < u32::MAX,
    ensures
        r == node_of(rows, max_id, id),
        r matches Some(n) ==> n < rows.len(),
{
    proof {
        lemma_node_below(rows, max_id, id);
    }
    if id < 0 || id as u64 >= map.len() as u64 {
        return None;
    }
    let n: u32 = map[id as usize];
    assert(map@[id as int] == n);
    if n == MISSING {
        None
    } else {
        Some(n)
    }
}

/// Build the graph from the rows of the database. `max_id` is the largest id
/// of a valid path, or 0 without any.
fn graph_of_rows(
    max_id: i64,
    rows: Vec<PathRow>,
    edge_rows: &[(i64, i64)],
    store_prefix: String,
) -> (g: StoreGraph)
    requires
        0 <= max_id < usize::MAX,
        rows@.len() < u32::MAX,
        rows@.len() < usize::MAX,
        edge_rows@.len() <= u32::MAX,
    ensures
        g.wf(),
        g.size() == rows@.len(),
        g.store_prefix@ == store_prefix@,
        forall|i: int|
            0 <= i < rows@.len() ==> {
                &&& (#[trigger] g.paths@[i])@ == rows@[i].path@
                &&& g.nar_sizes@[i] == size_of_row(rows@[i].nar_size)
                &&& g.registration_times@[i] == rows@[i].registration_time
            },
        forall|node: u32|
            node < rows@.len() ==> #[trigger] g.refs_of(node) == graph::targets_of(
                edges_of_rows(rows@, max_id, edge_rows@),
                node,
            ),
{
    let n: usize = rows.len();
    let mut id_to_idx: Vec<u32> = vec![MISSING; max_id as usize + 1];
    let mut paths: Vec<String> = Vec::new();
    let mut nar_sizes: Vec<u64> = Vec::new();
    let mut registration_times: Vec<i64> = Vec::new();
    let mut i: usize = 0;
    while i < n
        invariant
            0 <= max_id < usize::MAX,
            n == rows@.len(),
            n < u32::MAX,
            i <= n,
            maps_ids(id_to_idx@, rows@.take(i as int), max_id),
            paths@.len() == i,
            nar_sizes@.len() == i,
            registration_times@.len() == i,
            forall|j: int|
                0 <= j < i ==> {
                    &&& (#[trigger] paths@[j])@ == rows@[j].path@
                    &&& nar_sizes@[j] == size_of_row(rows@[j].nar_size)
                    &&& registration_times@[j] == rows@[j].registration_time
                },
        decreases n - i,
    {
        let row = &rows[i];
        let idx: u32 = i as u32;
        let ghost map0 = id_to_idx@;
        let ghost was = rows@.take(i as int);
        let ghost now = rows@.take(i + 1);
        if row.id >= 0 && row.id <= max_id {
            id_to_idx[row.id as usize] = idx;
        }
        proof {
            assert(now.drop_last() =~= was);
            assert forall|id: i64| 0 <= id <= max_id implies #[trigger] id_to_idx@[id as int]
                == match node_of(now, max_id, id) {
                Some(m) => m,
                None => MISSING,
            } by {
                assert(map0[id as int] == match node_of(was, max_id, id) {
                    Some(m) => m,
                    None => MISSING,
                });
            }
        }
        let ghost paths0 = paths@;
        paths.push(row.path.clone());
        let nar: u64 = match row.nar_size {
            Some(s) => if s < 0 {
                0
            } else {
                s as u64
            },
            None => 0,
        };
        nar_sizes.push(nar);
        registration_times.push(row.registration_time);
        proof {
            assert forall|j: int| 0 <= j < i + 1 implies {
                &&& (#[trigger] paths@[j])@ == rows@[j].path@
                &&& nar_sizes@[j] == size_of_row(rows@[j].nar_size)
                &&& registration_times@[j] == rows@[j].registration_time
            } by {
                if j < i {
                    assert(paths@[j] == paths0[j]);
                }
            }
        }
        i += 1;
    }
    proof {
        assert(rows@.take(n as int) =~= rows@);
    }
    let edges = resolve_edges(&id_to_idx, edge_rows, Ghost(rows@), Ghost(max_id));
    StoreGraph::from_edges(paths, nar_sizes, registration_times, &edges, store_prefix)
}

/// The edges between nodes that the edge rows stand for.
fn resolve_edges(
    map: &[u32],
    edge_rows: &[(i64, i64)],
    Ghost(rows): Ghost<Seq<PathRow>>,
    Ghost(max_id): Ghost<i64>,
) -> (edges: Vec<(u32, u32)>)
    requires
        maps_ids(map@, rows, max_id),
        rows.len() < u32::MAX,
    ensures
        edges@ == edges_of_rows(rows, max_id, edge_rows@),
        edges@.len() <= edge_rows@.len(),
        graph::edges_below(edges@, rows.len() as int),
{
    let mut edges: Vec<(u32, u32)> = Vec::new();
    let mut k: usize = 0;
    while k < edge_rows.len()
        invariant
            maps_ids(map@, rows, max_id),
            rows.len() < u32::MAX,
            k <= edge_rows@.len(),
            edges@ == edges_of_rows(rows, max_id, edge_rows@.take(k as int)),
            edges@.len() <= k,
            graph::edges_below(edges@, rows.len() as int),
        decreases edge_rows@.len() - k,
    {
        let row: (i64, i64) = edge_rows[k];
        proof {
            assert(edge_rows@.take(k + 1).drop_last() =~= edge_rows@.take(k as int));
        }
        match (
            lookup(map, row.0, Ghost(rows), Ghost(max_id)),
            lookup(map, row.1, Ghost(rows), Ghost(max_id)),
        ) {
            (Some(from), Some(to)) => {
                edges.push((from, to));
            },
            _ => {},
        }
        k += 1;
    }
    assert(edge_rows@.take(k as int) =~= edge_rows@);
    edges
}

/// Where edges of the graph come from. Directions: an alive output keeps its
/// derivation alive under keep-derivations, an alive derivation keeps its
/// outputs alive under keep-outputs.
#[derive(Clone, Copy, PartialEq, Eq, Structural)]
pub enum EdgeSource {
    /// Direct references between store paths.
    Refs,
    /// Output to derivation, by the deriver recorded for a valid path.
    OutputToDrvByDeriver,
    /// Output to derivation, by the outputs recorded for a derivation. Covers
    /// outputs whose deriver is unset.
    OutputToDrvByOutputs,
    /// Output to derivation, by the build trace.
    OutputToDrvByTrace,
    /// Derivation to output, by the outputs recorded for a derivation.
    DrvToOutputByOutputs,
    /// Derivation to output, by the deriver recorded for a valid path.
    DrvToOutputByDeriver,
    /// Derivation to output, by the build trace.
    DrvToOutputByTrace,
}

/// The sources of edges under the given settings, in the order in which they
/// are read. The build trace is read only where its table exists.
pub open spec fn edge_plan(
    keep_derivations: bool,
    keep_outputs: bool,
    has_build_trace: bool,
) -> Seq<EdgeSource> {
    let to_drv = if !keep_derivations {
        Seq::empty()
    } else if has_build_trace {
        seq![
            EdgeSource::OutputToDrvByDeriver,
            EdgeSource::OutputToDrvByOutputs,
            EdgeSource::OutputToDrvByTrace,
        ]
    } else {
        seq![EdgeSource::OutputToDrvByDeriver, EdgeSource::OutputToDrvByOutputs]
    };
    let to_output = if !keep_outputs {
        Seq::empty()
    } else if has_build_trace {
        seq![
            EdgeSource::DrvToOutputByOutputs,
            EdgeSource::DrvToOutputByDeriver,
            EdgeSource::DrvToOutputByTrace,
        ]
    } else {
        seq![EdgeSource::DrvToOutputByOutputs, EdgeSource::DrvToOutputByDeriver]
    };
    seq![EdgeSource::Refs] + to_drv + to_output
}

/// The query that gives the edges of `source` as pairs of ids.
pub open spec fn query_of(source: EdgeSource, store_prefix: Seq<char>) -> Seq<char> {
    match source {
        EdgeSource::Refs => "SELECT referrer, reference FROM Refs"@,
        EdgeSource::OutputToDrvByDeriver => "SELECT v.id, d.id FROM ValidPaths v JOIN ValidPaths d ON d.path = v.deriver WHERE v.deriver IS NOT NULL"@,
        EdgeSource::OutputToDrvByOutputs => "SELECT o.id, do2.drv FROM ValidPaths o JOIN DerivationOutputs do2 ON do2.path = o.path"@,
        EdgeSource::OutputToDrvByTrace => "SELECT o.id, d.id FROM BuildTraceV3 bt JOIN ValidPaths o ON o.path = bt.outputPath JOIN ValidPaths d ON d.path = '"@
            + store_prefix + "' || bt.drvPath"@,
        EdgeSource::DrvToOutputByOutputs => "SELECT do2.drv, o.id FROM DerivationOutputs do2 JOIN ValidPaths o ON o.path = do2.path"@,
        EdgeSource::DrvToOutputByDeriver => "SELECT d.id, v.id FROM ValidPaths v JOIN ValidPaths d ON d.path = v.deriver WHERE v.deriver IS NOT NULL"@,
        EdgeSource::DrvToOutputByTrace => "SELECT d.id, o.id FROM BuildTraceV3 bt JOIN ValidPaths d ON d.path = '"@
            + store_prefix + "' || bt.drvPath JOIN ValidPaths o ON o.path = bt.outputPath"@,
    }
}

/// The query that gives the edges of `source` as pairs of ids.
pub fn edge_query(source: EdgeSource, store_prefix: &str) -> (r: String)
    ensures
        r@ == query_of(source, store_prefix@),
{
    match source {
        EdgeSource::Refs => "SELECT referrer, reference FROM Refs".to_owned(),
        EdgeSource::OutputToDrvByDeriver => "SELECT v.id, d.id FROM ValidPaths v JOIN ValidPaths d ON d.path = v.deriver WHERE v.deriver IS NOT NULL".to_owned(),
        EdgeSource::OutputToDrvByOutputs => "SELECT o.id, do2.drv FROM ValidPaths o JOIN DerivationOutputs do2 ON do2.path = o.path".to_owned(),
        EdgeSource::OutputToDrvByTrace => text::join3(
            "SELECT o.id, d.id FROM BuildTraceV3 bt JOIN ValidPaths o ON o.path = bt.outputPath JOIN ValidPaths d ON d.path = '",
            store_prefix,
            "' || bt.drvPath",
        ),
        EdgeSource::DrvToOutputByOutputs => "SELECT do2.drv, o.id FROM DerivationOutputs do2 JOIN ValidPaths o ON o.path = do2.path".to_owned(),
        EdgeSource::DrvToOutputByDeriver => "SELECT d.id, v.id FROM ValidPaths v JOIN ValidPaths d ON d.path = v.deriver WHERE v.deriver IS NOT NULL".to_owned(),
        EdgeSource::DrvToOutputByTrace => text::join3(
            "SELECT d.id, o.id FROM BuildTraceV3 bt JOIN ValidPaths d ON d.path = '",
            store_prefix,
            "' || bt.drvPath JOIN ValidPaths o ON o.path = bt.outputPath",
        ),
    }
}

/// Without the settings only references count, and each setting adds edges of
/// its own direction only.
pub proof fn law_settings_choose_directions(
    keep_derivations: bool,
    keep_outputs: bool,
    has_build_trace: bool,
    source: EdgeSource,
)
    ensures
        edge_plan(keep_derivations, keep_outputs, has_build_trace).contains(source) <==> match source {
            EdgeSource::Refs => true,
            EdgeSource::OutputToDrvByDeriver => keep_derivations,
            EdgeSource::OutputToDrvByOutputs => keep_derivations,
            EdgeSource::OutputToDrvByTrace => keep_derivations && has_build_trace,
            EdgeSource::DrvToOutputByOutputs => keep_outputs,
            EdgeSource::DrvToOutputByDeriver => keep_outputs,
            EdgeSource::DrvToOutputByTrace => keep_outputs && has_build_trace,
        },
{
    let plan = edge_plan(keep_derivations, keep_outputs, has_build_trace);
    let n = if !keep_derivations {
        1int
    } else if has_build_trace {
        4int
    } else {
        3int
    };
    assert(plan[0] == EdgeSource::Refs);
    if keep_derivations {
        assert(plan[1] == EdgeSource::OutputToDrvByDeriver);
        assert(plan[2] == EdgeSource::OutputToDrvByOutputs);
        if has_build_trace {
            assert(plan[3] == EdgeSource::OutputToDrvByTrace);
        }
    }
    if keep_outputs {
        assert(plan[n] == EdgeSource::DrvToOutputByOutputs);
        assert(plan[n + 1] == EdgeSource::DrvToOutputByDeriver);
        if has_build_trace {
            assert(plan[n + 2] == EdgeSource::DrvToOutputByTrace);
        }
    }
}

/// `dir` without trailing slashes, but for a bare `/`.
pub open spec fn normalized(dir: Seq<u8>) -> Seq<u8>
    decreases dir.len(),
{
    if dir.len() > 1 && dir.last() == 47u8 {
        normalized(dir.drop_last())
    } else {
        dir
    }
}

/// Strip trailing slashes (but keep a bare "/").
pub fn normalize_dir(dir: &[u8]) -> (r: Vec<u8>)
    ensures
        r@ == normalized(dir@),
{
    let mut end: usize = dir.len();
    assert(dir@.take(end as int) =~= dir@);
    while end > 1 && dir[end - 1] == 47
        invariant
            end <= dir@.len(),
            normalized(dir@.take(end as int)) == normalized(dir@),
        decreases end,
    {
        assert(dir@.take(end as int).drop_last() =~= dir@.take(end - 1));
        end -= 1;
    }
    assert(dir@.take(end as int) =~= dir@.subrange(0, end as int));
    text::copy_bytes(vstd::slice::slice_subrange(dir, 0, end))
}

/// Trailing slashes of a directory do not matter.
pub proof fn law_trailing_slashes_do_not_matter(dir: Seq<u8>)
    requires
        dir.len() > 0,
    ensures
        normalized(dir.push(47u8)) == normalized(dir),
        normalized(normalized(dir)) == normalized(dir),
    decreases dir.len(),
{
    assert(dir.push(47u8).drop_last() =~= dir);
    if dir.len() > 1 && dir.last() == 47u8 {
        law_trailing_slashes_do_not_matter(dir.drop_last());
    }
}

/// Only slashes are taken off a directory, and all of them that end it, but for
/// the one of a bare `/`.
pub proof fn law_only_slashes_are_stripped(dir: Seq<u8>)
    ensures
        normalized(dir).len() <= dir.len(),
        dir.take(normalized(dir).len() as int) == normalized(dir),
        forall|i: int| normalized(dir).len() <= i < dir.len() ==> #[trigger] dir[i] == 47u8,
        dir.len() > 0 ==> normalized(dir).len() > 0,
        normalized(dir).len() > 1 ==> normalized(dir).last() != 47u8,
    decreases dir.len(),
{
    if dir.len() > 1 && dir.last() == 47u8 {
        let init = dir.drop_last();
        law_only_slashes_are_stripped(init);
        let n = normalized(dir).len();
        assert(dir.take(n as int) =~= init.take(n as int));
        assert forall|i: int| n <= i < dir.len() implies #[trigger] dir[i] == 47u8 by {
            if i < init.len() {
                assert(init[i] == 47u8);
            }
        }
    } else {
        assert(dir.take(dir.len() as int) =~= dir);
    }
}

/// The path of `name` in the directory `dir`.
pub open spec fn child(dir: Seq<u8>, name: Seq<u8>) -> Seq<u8> {
    if dir.len() == 0 || dir.last() == 47u8 {
        dir + name
    } else {
        dir.push(47u8) + name
    }
}

/// The path of `name`, a relative one, in the directory `dir`.
pub fn join_path(dir: &[u8], name: &[u8]) -> (r: Vec<u8>)
    ensures
        r@ == child(dir@, name@),
{
    let mut r: Vec<u8> = text::copy_bytes(dir);
    if dir.len() > 0 && dir[dir.len() - 1] != 47 {
        r.push(47);
    }
    let ghost base = r@;
    r.extend_from_slice(name);
    assert(r@ =~= base + name@);
    r
}

/// A name in a directory comes behind the directory and one slash, which a
/// directory that ends in a slash already has.
pub proof fn law_children_lie_below(dir: Seq<u8>, name: Seq<u8>)
    ensures
        dir.len() > 0 && dir.last() != 47u8 ==> child(dir, name) == dir + seq![47u8] + name,
        dir.len() > 0 ==> child(dir.push(47u8), name) == dir + seq![47u8] + name,
        child(Seq::empty(), name) == name,
{
    assert(dir.push(47u8) =~= dir + seq![47u8]);
    assert(Seq::<u8>::empty() + name =~= name);
}

/// The name of the directory of shared files.
pub open spec fn links_bytes() -> Seq<u8> {
    seq![46u8, 108u8, 105u8, 110u8, 107u8, 115u8]
}

/// The directory of shared files is called `.links`.
proof fn lemma_links_name()
    ensures
        vstd::utf8::encode_utf8(".links"@) == links_bytes(),
{
    reveal_strlit(".links");
    vstd::utf8::is_ascii_chars_encode_utf8(".links"@);
    assert(vstd::utf8::encode_utf8(".links"@) =~= links_bytes());
}

/// Handle to the store: where it lies and which paths keep which alive.
pub struct NixDb {
    pub store_dir: Vec<u8>,
    pub state_dir: Vec<u8>,
    pub real_store_dir: Vec<u8>,
    pub links_dir: Vec<u8>,
    /// Mirror of the `keep-derivations` setting (default: true). When set,
    /// the derivations of alive outputs are kept alive.
    pub keep_derivations: bool,
    /// Mirror of the `keep-outputs` setting (default: false). When set, the
    /// outputs of alive derivations are kept alive.
    pub keep_outputs: bool,
}

/// A row of the database that is not a store path.
pub struct InvalidStorePath {
    pub path: String,
    /// What the parser says of it.
    pub reason: String,
}

impl NixDb {
    /// A trailing slash of the store directory does not matter: every
    /// comparison against paths of the database appends its own.
    pub fn new(
        store_dir: &[u8],
        state_dir: &[u8],
        keep_derivations: bool,
        keep_outputs: bool,
    ) -> (r: NixDb)
        ensures
            r.store_dir@ == normalized(store_dir@),
            r.state_dir@ == state_dir@,
            r.real_store_dir@ == normalized(store_dir@),
            r.links_dir@ == child(normalized(store_dir@), links_bytes()),
            r.links_dir@ == child(normalized(store_dir@), vstd::utf8::encode_utf8(".links"@)),
            r.keep_derivations == keep_derivations,
            r.keep_outputs == keep_outputs,
    {
        let dir = normalize_dir(store_dir);
        let links: Vec<u8> = vec![46, 108, 105, 110, 107, 115];
        proof {
            assert(links@ =~= links_bytes());
            lemma_links_name();
        }
        NixDb {
            real_store_dir: text::copy_bytes(&dir),
            links_dir: join_path(&dir, &links),
            store_dir: dir,
            state_dir: text::copy_bytes(state_dir),
            keep_derivations,
            keep_outputs,
        }
    }

    /// The store directory and a slash, as text.
    pub fn store_prefix(&self) -> (r: String)
        ensures
            r@ == text::lossy(self.store_dir@).push('/'),
            text::decoded(self.store_dir@) matches Some(dir) ==> r@ == dir.push('/'),
    {
        let mut r = text::lossy_text(&self.store_dir);
        r.push('/');
        r
    }

    /// The sources of edges to read. `has_build_trace` tells whether the table
    /// of the build trace exists; it counts only under `wants_build_trace`.
    pub fn edge_sources(&self, has_build_trace: bool) -> (r: Vec<EdgeSource>)
        ensures
            r@ == edge_plan(self.keep_derivations, self.keep_outputs, has_build_trace),
    {
        let mut r: Vec<EdgeSource> = Vec::new();
        r.push(EdgeSource::Refs);
        if self.keep_derivations {
            r.push(EdgeSource::OutputToDrvByDeriver);
            r.push(EdgeSource::OutputToDrvByOutputs);
            if has_build_trace {
                r.push(EdgeSource::OutputToDrvByTrace);
            }
        }
        if self.keep_outputs {
            r.push(EdgeSource::DrvToOutputByOutputs);
            r.push(EdgeSource::DrvToOutputByDeriver);
            if has_build_trace {
                r.push(EdgeSource::DrvToOutputByTrace);
            }
        }
        assert(r@ =~= edge_plan(self.keep_derivations, self.keep_outputs, has_build_trace));
        r
    }

    /// Whether the build trace can matter at all.
    pub fn wants_build_trace(&self) -> (r: bool)
        ensures
            r == (self.keep_derivations || self.keep_outputs),
            !r ==> edge_plan(self.keep_derivations, self.keep_outputs, true) == edge_plan(
                self.keep_derivations,
                self.keep_outputs,
                false,
            ),
    {
        self.keep_derivations || self.keep_outputs
    }

    /// Build the graph from the rows of the database. `max_id` is the largest
    /// id of a valid path, or 0 without any.
    pub fn load_graph(
        &self,
        max_id: i64,
        rows: Vec<PathRow>,
        edge_rows: &[(i64, i64)],
    ) -> (g: StoreGraph)
        requires
            0 <= max_id < usize::MAX,
            rows@.len() < u32::MAX,
            rows@.len() < usize::MAX,
            edge_rows@.len() <= u32::MAX,
        ensures
            g.wf(),
            g.size() == rows@.len(),
            g.store_prefix@ == text::lossy(self.store_dir@).push('/'),
            text::decoded(self.store_dir@) matches Some(dir) ==> g.store_prefix@ == dir.push('/'),
            forall|i: int|
                0 <= i < rows@.len() ==> {
                    &&& (#[trigger] g.paths@[i])@ == rows@[i].path@
                    &&& g.nar_sizes@[i] == size_of_row(rows@[i].nar_size)
                    &&& g.registration_times@[i] == rows@[i].registration_time
                },
            forall|node: u32|
                node < rows@.len() ==> #[trigger] g.refs_of(node) == graph::targets_of(
                    edges_of_rows(rows@, max_id, edge_rows@),
                    node,
                ),
            forall|a: u32, b: u32| #[trigger]
                g.refers(a, b) <==> edges_of_rows(rows@, max_id, edge_rows@).contains((a, b)),
            forall|a: u32, b: u32| #[trigger]
                g.refers(a, b) <==> {
                    &&& a < rows@.len() && b < rows@.len()
                    &&& 0 <= rows@[a as int].id <= max_id
                    &&& 0 <= rows@[b as int].id <= max_id
                    &&& edge_rows@.contains((rows@[a as int].id, rows@[b as int].id))
                    &&& forall|j: int|
                        a < j < rows@.len() ==> (#[trigger] rows@[j]).id != rows@[a as int].id
                    &&& forall|j: int|
                        b < j < rows@.len() ==> (#[trigger] rows@[j]).id != rows@[b as int].id
                },
            forall|i: int|
                0 <= i < rows@.len() ==> match (#[trigger] rows@[i]).nar_size {
                    Some(n) if n > 0 => g.nar_sizes@[i] == n,
                    _ => g.nar_sizes@[i] == 0,
                },
    {
        let ghost edges = edges_of_rows(rows@, max_id, edge_rows@);
        let g = graph_of_rows(max_id, rows, edge_rows, self.store_prefix());
        proof {
            assert forall|a: u32, b: u32| #[trigger] g.refers(a, b) <==> edges.contains((a, b)) by {
                graph::lemma_targets_contain(edges, a, b);
                if edges.contains((a, b)) {
                    lemma_edges_below(rows@, max_id, edge_rows@, a, b);
                }
            }
            assert forall|a: u32, b: u32| #[trigger] g.refers(a, b) <==> {
                &&& a < rows@.len() && b < rows@.len()
                &&& 0 <= rows@[a as int].id <= max_id
                &&& 0 <= rows@[b as int].id <= max_id
                &&& edge_rows@.contains((rows@[a as int].id, rows@[b as int].id))
                &&& forall|j: int|
                    a < j < rows@.len() ==> (#[trigger] rows@[j]).id != rows@[a as int].id
                &&& forall|j: int|
                    b < j < rows@.len() ==> (#[trigger] rows@[j]).id != rows@[b as int].id
            } by {
                law_edges_follow_the_rows(rows@, max_id, edge_rows@, a, b);
            }
            assert forall|i: int| 0 <= i < rows@.len() implies match (
            #[trigger] rows@[i]).nar_size {
                Some(n) if n > 0 => g.nar_sizes@[i] == n,
                _ => g.nar_sizes@[i] == 0,
            } by {
                assert(g.paths@[i]@ == rows@[i].path@);
            }
        }
        g
    }
}

proof fn lemma_edges_below(
    rows: Seq<PathRow>,
    max_id: i64,
    edge_rows: Seq<(i64, i64)>,
    a: u32,
    b: u32,
)
    requires
        rows.len() < u32::MAX,
        edges_of_rows(rows, max_id, edge_rows).contains((a, b)),
    ensures
        a < rows.len(),
        b < rows.len(),
    decreases edge_rows.len(),
{
    let edges = edges_of_rows(rows, max_id, edge_rows);
    let rest = edges_of_rows(rows, max_id, edge_rows.drop_last());
    let k = choose|k: int| 0 <= k < edges.len() && edges[k] == (a, b);
    let row = edge_rows.last();
    lemma_node_below(rows, max_id, row.0);
    lemma_node_below(rows, max_id, row.1);
    if k < rest.len() {
        assert(rest[k] == (a, b));
        lemma_edges_below(rows, max_id, edge_rows.drop_last(), a, b);
    }
}

/// A node stands for an id exactly if it is the last row with that id.
proof fn lemma_node_is_last(rows: Seq<PathRow>, max_id: i64, id: i64, n: u32)
    requires
        rows.len() < u32::MAX,
    ensures
        node_of(rows, max_id, id) == Some(n) <==> {
            &&& n < rows.len()
            &&& 0 <= id <= max_id
            &&& rows[n as int].id == id
            &&& forall|j: int| n < j < rows.len() ==> (#[trigger] rows[j]).id != id
        },
    decreases rows.len(),
{
    if rows.len() > 0 {
        let init = rows.drop_last();
        lemma_node_is_last(init, max_id, id, n);
        let last = rows.len() - 1;
        if rows.last().id == id {
            assert(rows[last].id == id);
        } else if n < last {
            assert forall|j: int| n < j < init.len() && (forall|i: int|
                n < i < rows.len() ==> (#[trigger] rows[i]).id != id) implies (
            #[trigger] init[j]).id != id by {
                assert(rows[j].id != id);
            }
            assert forall|j: int| n < j < rows.len() && (forall|i: int|
                n < i < init.len() ==> (#[trigger] init[i]).id != id) implies (
            #[trigger] rows[j]).id != id by {
                if j < last {
                    assert(init[j].id != id);
                }
            }
        }
    }
}

/// An edge is there exactly if an edge row stands for it.
proof fn lemma_edges_contain(
    rows: Seq<PathRow>,
    max_id: i64,
    edge_rows: Seq<(i64, i64)>,
    e: (u32, u32),
)
    ensures
        edges_of_rows(rows, max_id, edge_rows).contains(e) <==> exists|k: int|
            0 <= k < edge_rows.len() && edge_of_row(rows, max_id, #[trigger] edge_rows[k]) == Some(
                e,
            ),
    decreases edge_rows.len(),
{
    if edge_rows.len() > 0 {
        let edges = edges_of_rows(rows, max_id, edge_rows);
        let init = edge_rows.drop_last();
        let rest = edges_of_rows(rows, max_id, init);
        let last = edge_rows.len() - 1;
        lemma_edges_contain(rows, max_id, init, e);
        if edges.contains(e) {
            let k = choose|k: int| 0 <= k < edges.len() && edges[k] == e;
            if k < rest.len() {
                assert(rest[k] == e);
                let j = choose|j: int|
                    0 <= j < init.len() && edge_of_row(rows, max_id, #[trigger] init[j]) == Some(e);
                assert(edge_of_row(rows, max_id, edge_rows[j]) == Some(e));
            } else {
                assert(edge_of_row(rows, max_id, edge_rows[last]) == Some(e));
            }
        }
        if exists|k: int|
            0 <= k < edge_rows.len() && edge_of_row(rows, max_id, #[trigger] edge_rows[k]) == Some(
                e,
            ) {
            let k = choose|k: int|
                0 <= k < edge_rows.len() && edge_of_row(rows, max_id, #[trigger] edge_rows[k])
                    == Some(e);
            if k < last {
                assert(edge_of_row(rows, max_id, init[k]) == Some(e));
                let j = choose|j: int| 0 <= j < rest.len() && rest[j] == e;
                assert(edges[j] == e);
            } else {
                assert(edges[rest.len() as int] == e);
            }
        }
    }
}

/// A node refers to another exactly if an edge row holds their two ids, both in
/// range, and no later row has either id.
pub proof fn law_edges_follow_the_rows(
    rows: Seq<PathRow>,
    max_id: i64,
    edge_rows: Seq<(i64, i64)>,
    a: u32,
    b: u32,
)
    requires
        rows.len() < u32::MAX,
    ensures
        edges_of_rows(rows, max_id, edge_rows).contains((a, b)) <==> {
            &&& a < rows.len() && b < rows.len()
            &&& 0 <= rows[a as int].id <= max_id
            &&& 0 <= rows[b as int].id <= max_id
            &&& edge_rows.contains((rows[a as int].id, rows[b as int].id))
            &&& forall|j: int| a < j < rows.len() ==> (#[trigger] rows[j]).id != rows[a as int].id
            &&& forall|j: int| b < j < rows.len() ==> (#[trigger] rows[j]).id != rows[b as int].id
        },
{
    lemma_edges_contain(rows, max_id, edge_rows, (a, b));
    if edges_of_rows(rows, max_id, edge_rows).contains((a, b)) {
        let k = choose|k: int|
            0 <= k < edge_rows.len() && edge_of_row(rows, max_id, #[trigger] edge_rows[k]) == Some(
                (a, b),
            );
        let row = edge_rows[k];
        lemma_node_is_last(rows, max_id, row.0, a);
        lemma_node_is_last(rows, max_id, row.1, b);
        assert(edge_rows[k] == (rows[a as int].id, rows[b as int].id));
    }
    if a < rows.len() && b < rows.len() {
        let row = (rows[a as int].id, rows[b as int].id);
        lemma_node_is_last(rows, max_id, row.0, a);
        lemma_node_is_last(rows, max_id, row.1, b);
        if edge_rows.contains(row) {
            let k = choose|k: int| 0 <= k < edge_rows.len() && edge_rows[k] == row;
            assert(edge_of_row(rows, max_id, edge_rows[k]) == edge_of_row(rows, max_id, row));
        }
    }
}

/// Where no id occurs twice, the rows of two nodes and the edge rows alone say
/// whether one refers to the other: every edge row between two ids in range
/// counts, however large the ids are, and nothing else does.
pub proof fn law_every_edge_row_counts(
    rows: Seq<PathRow>,
    max_id: i64,
    edge_rows: Seq<(i64, i64)>,
    a: u32,
    b: u32,
)
    requires
        rows.len() < u32::MAX,
        a < rows.len(),
        b < rows.len(),
        forall|i: int, j: int|
            0 <= i < j < rows.len() ==> (#[trigger] rows[i]).id != (#[trigger] rows[j]).id,
    ensures
        edges_of_rows(rows, max_id, edge_rows).contains((a, b)) <==> 0 <= rows[a as int].id
            <= max_id && 0 <= rows[b as int].id <= max_id && edge_rows.contains(
            (rows[a as int].id, rows[b as int].id),
        ),
        graph::targets_of(edges_of_rows(rows, max_id, edge_rows), a).contains(b) <==> 0
            <= rows[a as int].id <= max_id && 0 <= rows[b as int].id <= max_id
            && edge_rows.contains((rows[a as int].id, rows[b as int].id)),
{
    law_edges_follow_the_rows(rows, max_id, edge_rows, a, b);
    graph::lemma_targets_contain(edges_of_rows(rows, max_id, edge_rows), a, b);
    assert forall|j: int| a < j < rows.len() implies (#[trigger] rows[j]).id != rows[a as int].id by {
        assert(rows[a as int].id != rows[j].id);
    }
    assert forall|j: int| b < j < rows.len() implies (#[trigger] rows[j]).id != rows[b as int].id by {
        assert(rows[b as int].id != rows[j].id);
    }
}

/// The size of a row is what is recorded, where that is positive, and zero
/// otherwise.
pub proof fn law_recorded_sizes_count(nar_size: Option<i64>)
    ensures
        nar_size matches Some(n) ==> size_of_row(nar_size) >= n && (size_of_row(nar_size) == n
            || n < 0),
        nar_size matches Some(n) ==> (n < 0 ==> size_of_row(nar_size) == 0),
        nar_size is None ==> size_of_row(nar_size) == 0,
{
}

/// The rows of valid paths.
pub const ROWS_QUERY: &'static str = "SELECT id, path, narSize, registrationTime FROM ValidPaths";

/// The largest id of a valid path.
pub const MAX_ID_QUERY: &'static str = "SELECT IFNULL(MAX(id), 0) FROM ValidPaths";

/// A step of the removal of paths from the database, in one transaction.
#[derive(Clone, Copy, PartialEq, Eq, Structural)]
pub enum InvalidateStep {
    Begin,
    /// Make the table that collects the ids of dead paths.
    CreateDead,
    /// Empty it.
    ClearDead,
    /// Fill it, path by path.
    CollectDead,
    /// Remove the references from and to dead paths. Cycles among them would
    /// otherwise keep their rows.
    DropRefs,
    /// Remove realisations of dead paths, and what refers to them.
    DropRealisations,
    /// Remove the rows of dead paths.
    DropRows,
    Commit,
    Rollback,
    /// All of it happened.
    Finish,
    /// It failed.
    Fail,
}

/// The step that follows. A failing statement takes the whole transaction back.
pub open spec fn invalidate_after(
    step: InvalidateStep,
    ok: bool,
    has_realisations: bool,
) -> InvalidateStep {
    match step {
        InvalidateStep::Begin => if ok {
            InvalidateStep::CreateDead
        } else {
            InvalidateStep::Fail
        },
        InvalidateStep::Commit => if ok {
            InvalidateStep::Finish
        } else {
            InvalidateStep::Fail
        },
        InvalidateStep::Rollback => InvalidateStep::Fail,
        InvalidateStep::Finish => InvalidateStep::Finish,
        InvalidateStep::Fail => InvalidateStep::Fail,
        _ => if !ok {
            InvalidateStep::Rollback
        } else {
            match step {
                InvalidateStep::CreateDead => InvalidateStep::ClearDead,
                InvalidateStep::ClearDead => InvalidateStep::CollectDead,
                InvalidateStep::CollectDead => InvalidateStep::DropRefs,
                InvalidateStep::DropRefs => if has_realisations {
                    InvalidateStep::DropRealisations
                } else {
                    InvalidateStep::DropRows
                },
                InvalidateStep::DropRealisations => InvalidateStep::DropRows,
                _ => InvalidateStep::Commit,
            }
        },
    }
}

/// The step that follows once `step` is over. `has_realisations` tells whether
/// the table of realisations exists.
pub fn next_invalidate_step(step: InvalidateStep, ok: bool, has_realisations: bool) -> (r:
    InvalidateStep)
    ensures
        r == invalidate_after(step, ok, has_realisations),
{
    match step {
        InvalidateStep::Begin => if ok {
            InvalidateStep::CreateDead
        } else {
            InvalidateStep::Fail
        },
        InvalidateStep::Commit => if ok {
            InvalidateStep::Finish
        } else {
            InvalidateStep::Fail
        },
        InvalidateStep::Rollback => InvalidateStep::Fail,
        InvalidateStep::Finish => InvalidateStep::Finish,
        InvalidateStep::Fail => InvalidateStep::Fail,
        _ => {
            if !ok {
                return InvalidateStep::Rollback;
            }
            match step {
                InvalidateStep::CreateDead => InvalidateStep::ClearDead,
                InvalidateStep::ClearDead => InvalidateStep::CollectDead,
                InvalidateStep::CollectDead => InvalidateStep::DropRefs,
                InvalidateStep::DropRefs => if has_realisations {
                    InvalidateStep::DropRealisations
                } else {
                    InvalidateStep::DropRows
                },
                InvalidateStep::DropRealisations => InvalidateStep::DropRows,
                _ => InvalidateStep::Commit,
            }
        },
    }
}

/// What a step executes.
pub open spec fn sql_of(step: InvalidateStep) -> Seq<char> {
    match step {
        InvalidateStep::Begin => "BEGIN"@,
        InvalidateStep::CreateDead => "CREATE TEMP TABLE IF NOT EXISTS DeadPaths (id INTEGER PRIMARY KEY)"@,
        InvalidateStep::ClearDead => "DELETE FROM DeadPaths"@,
        InvalidateStep::CollectDead => "INSERT INTO DeadPaths SELECT id FROM ValidPaths WHERE path = ?"@,
        InvalidateStep::DropRefs => "DELETE FROM Refs WHERE referrer IN (SELECT id FROM DeadPaths) OR reference IN (SELECT id FROM DeadPaths)"@,
        InvalidateStep::DropRealisations => "DELETE FROM RealisationsRefs WHERE referrer IN (SELECT id FROM Realisations WHERE outputPath IN (SELECT id FROM DeadPaths)) OR realisationReference IN (SELECT id FROM Realisations WHERE outputPath IN (SELECT id FROM DeadPaths)); DELETE FROM Realisations WHERE outputPath IN (SELECT id FROM DeadPaths)"@,
        InvalidateStep::DropRows => "DELETE FROM ValidPaths WHERE id IN (SELECT id FROM DeadPaths)"@,
        InvalidateStep::Commit => "COMMIT"@,
        InvalidateStep::Rollback => "ROLLBACK"@,
        InvalidateStep::Finish => ""@,
        InvalidateStep::Fail => ""@,
    }
}

/// What a step executes; nothing once all is over. The statement that collects
/// ids takes a path and is executed for each.
pub fn invalidate_sql(step: InvalidateStep) -> (r: &'static str)
    ensures
        r@ == sql_of(step),
{
    match step {
        InvalidateStep::Begin => "BEGIN",
        InvalidateStep::CreateDead => "CREATE TEMP TABLE IF NOT EXISTS DeadPaths (id INTEGER PRIMARY KEY)",
        InvalidateStep::ClearDead => "DELETE FROM DeadPaths",
        InvalidateStep::CollectDead => "INSERT INTO DeadPaths SELECT id FROM ValidPaths WHERE path = ?",
        InvalidateStep::DropRefs => "DELETE FROM Refs WHERE referrer IN (SELECT id FROM DeadPaths) OR reference IN (SELECT id FROM DeadPaths)",
        InvalidateStep::DropRealisations => "DELETE FROM RealisationsRefs WHERE referrer IN (SELECT id FROM Realisations WHERE outputPath IN (SELECT id FROM DeadPaths)) OR realisationReference IN (SELECT id FROM Realisations WHERE outputPath IN (SELECT id FROM DeadPaths)); DELETE FROM Realisations WHERE outputPath IN (SELECT id FROM DeadPaths)",
        InvalidateStep::DropRows => "DELETE FROM ValidPaths WHERE id IN (SELECT id FROM DeadPaths)",
        InvalidateStep::Commit => "COMMIT",
        InvalidateStep::Rollback => "ROLLBACK",
        InvalidateStep::Finish => "",
        InvalidateStep::Fail => "",
    }
}

/// Inside the transaction of a removal.
pub open spec fn in_transaction(step: InvalidateStep) -> bool {
    step != InvalidateStep::Begin && step != InvalidateStep::Finish && step != InvalidateStep::Fail
}

/// A statement that fails inside a removal has the whole of it taken back, a
/// removal succeeds only by its commit, and the rows of dead paths go only after
/// their references. A commit that fails is reported as it is: what becomes of
/// the transaction then is left to the database.
pub proof fn law_removal_is_whole(step: InvalidateStep, ok: bool, has_realisations: bool)
    ensures
        in_transaction(step) && step != InvalidateStep::Commit && step != InvalidateStep::Rollback
            ==> in_transaction(invalidate_after(step, ok, has_realisations)),
        in_transaction(step) && step != InvalidateStep::Commit && step != InvalidateStep::Rollback
            && !ok ==> invalidate_after(step, ok, has_realisations) == InvalidateStep::Rollback,
        !ok && step != InvalidateStep::Finish ==> invalidate_after(step, ok, has_realisations)
            != InvalidateStep::Finish,
        invalidate_after(step, ok, has_realisations) == InvalidateStep::Finish ==> step
            == InvalidateStep::Finish || (step == InvalidateStep::Commit && ok),
        invalidate_after(step, ok, has_realisations) == InvalidateStep::DropRows ==> ok && (step
            == InvalidateStep::DropRefs || step == InvalidateStep::DropRealisations),
        invalidate_after(step, ok, has_realisations) == InvalidateStep::DropRealisations ==> step
            == InvalidateStep::DropRefs,
{
}

/// The removal is not over at `i`, and takes the step that follows.
pub open spec fn goes_on(
    steps: Seq<InvalidateStep>,
    oks: Seq<bool>,
    has_realisations: bool,
    i: int,
) -> bool {
    steps[i] != InvalidateStep::Finish && steps[i + 1] == invalidate_after(
        steps[i],
        oks[i],
        has_realisations,
    )
}

/// A removal that nothing disturbs begins a transaction, fills the emptied
/// table of dead paths, removes their references, their realisations where such
/// a table exists, and their rows, and commits, in this order and leaving
/// nothing out.
pub proof fn law_removal_leaves_nothing_out(
    steps: Seq<InvalidateStep>,
    oks: Seq<bool>,
    has_realisations: bool,
)
    requires
        steps.len() > 0,
        steps[0] == InvalidateStep::Begin,
        steps.last() == InvalidateStep::Finish,
        forall|i: int|
            0 <= i < steps.len() - 1 ==> #[trigger] goes_on(steps, oks, has_realisations, i),
    ensures
        has_realisations ==> steps == seq![
            InvalidateStep::Begin,
            InvalidateStep::CreateDead,
            InvalidateStep::ClearDead,
            InvalidateStep::CollectDead,
            InvalidateStep::DropRefs,
            InvalidateStep::DropRealisations,
            InvalidateStep::DropRows,
            InvalidateStep::Commit,
            InvalidateStep::Finish,
        ],
        !has_realisations ==> steps == seq![
            InvalidateStep::Begin,
            InvalidateStep::CreateDead,
            InvalidateStep::ClearDead,
            InvalidateStep::CollectDead,
            InvalidateStep::DropRefs,
            InvalidateStep::DropRows,
            InvalidateStep::Commit,
            InvalidateStep::Finish,
        ],
{
    lemma_failure_is_final(steps, oks, has_realisations, 0);
    assert(goes_on(steps, oks, has_realisations, 0));
    assert(steps[1] == InvalidateStep::CreateDead) by {
        lemma_failure_is_final(steps, oks, has_realisations, 1);
    }
    assert(goes_on(steps, oks, has_realisations, 1));
    assert(steps[2] == InvalidateStep::ClearDead) by {
        lemma_failure_is_final(steps, oks, has_realisations, 2);
    }
    assert(goes_on(steps, oks, has_realisations, 2));
    assert(steps[3] == InvalidateStep::CollectDead) by {
        lemma_failure_is_final(steps, oks, has_realisations, 3);
    }
    assert(goes_on(steps, oks, has_realisations, 3));
    assert(steps[4] == InvalidateStep::DropRefs) by {
        lemma_failure_is_final(steps, oks, has_realisations, 4);
    }
    let k = if has_realisations {
        assert(goes_on(steps, oks, has_realisations, 4));
    assert(steps[5] == InvalidateStep::DropRealisations) by {
            lemma_failure_is_final(steps, oks, has_realisations, 5);
        }
        5int
    } else {
        4int
    };
    assert(goes_on(steps, oks, has_realisations, k));
    assert(steps[k + 1] == InvalidateStep::DropRows) by {
        lemma_failure_is_final(steps, oks, has_realisations, k + 1);
    }
    assert(goes_on(steps, oks, has_realisations, k + 1));
    assert(steps[k + 2] == InvalidateStep::Commit) by {
        lemma_failure_is_final(steps, oks, has_realisations, k + 2);
    }
    assert(goes_on(steps, oks, has_realisations, k + 2));
    assert(steps[k + 3] == InvalidateStep::Finish) by {
        lemma_failure_is_final(steps, oks, has_realisations, k + 3);
    }
    assert(steps.len() == k + 4) by {
        if steps.len() > k + 4 {
            assert(goes_on(steps, oks, has_realisations, k + 3));
        }
    }
}

proof fn lemma_failure_is_final(
    steps: Seq<InvalidateStep>,
    oks: Seq<bool>,
    has_realisations: bool,
    i: int,
)
    requires
        0 <= i < steps.len(),
        steps.last() == InvalidateStep::Finish,
        forall|i: int|
            0 <= i < steps.len() - 1 ==> #[trigger] goes_on(steps, oks, has_realisations, i),
    ensures
        steps[i] != InvalidateStep::Fail,
        steps[i] != InvalidateStep::Rollback,
        i == steps.len() - 1 <==> steps[i] == InvalidateStep::Finish,
    decreases steps.len() - i,
{
    if i < steps.len() - 1 {
        assert(goes_on(steps, oks, has_realisations, i));
        lemma_failure_is_final(steps, oks, has_realisations, i + 1);
    }
}

/// A step in the reading of the graph, all of which sees one snapshot.
#[derive(Clone, Copy, PartialEq, Eq, Structural)]
pub enum LoadStep {
    Begin,
    /// Read rows and edges.
    Read,
    Commit,
    /// Leave the connection usable.
    Rollback,
    /// The graph is read.
    Finish,
    /// Report the error.
    Fail,
}

/// The step that follows.
pub open spec fn load_after(step: LoadStep, ok: bool) -> LoadStep {
    match step {
        LoadStep::Begin => if ok {
            LoadStep::Read
        } else {
            LoadStep::Fail
        },
        LoadStep::Read => if ok {
            LoadStep::Commit
        } else {
            LoadStep::Rollback
        },
        LoadStep::Commit => if ok {
            LoadStep::Finish
        } else {
            LoadStep::Fail
        },
        LoadStep::Rollback => LoadStep::Fail,
        LoadStep::Finish => LoadStep::Finish,
        LoadStep::Fail => LoadStep::Fail,
    }
}

/// The step in the reading of the graph that follows `step`.
pub fn next_load_step(step: LoadStep, ok: bool) -> (r: LoadStep)
    ensures
        r == load_after(step, ok),
{
    match step {
        LoadStep::Begin => if ok {
            LoadStep::Read
        } else {
            LoadStep::Fail
        },
        LoadStep::Read => if ok {
            LoadStep::Commit
        } else {
            LoadStep::Rollback
        },
        LoadStep::Commit => if ok {
            LoadStep::Finish
        } else {
            LoadStep::Fail
        },
        LoadStep::Rollback => LoadStep::Fail,
        LoadStep::Finish => LoadStep::Finish,
        LoadStep::Fail => LoadStep::Fail,
    }
}

/// A failed reading is rolled back before it is reported, and rows and edges are
/// read only inside the transaction. A reading that nothing disturbs succeeds.
pub proof fn law_failed_load_is_rolled_back(step: LoadStep, ok: bool)
    ensures
        step == LoadStep::Read && !ok ==> load_after(step, ok) == LoadStep::Rollback,
        load_after(LoadStep::Rollback, ok) == LoadStep::Fail,
        load_after(step, ok) == LoadStep::Read ==> step == LoadStep::Begin && ok,
        load_after(step, ok) == LoadStep::Finish ==> step == LoadStep::Finish || (step
            == LoadStep::Commit && ok),
        load_after(load_after(load_after(LoadStep::Begin, true), true), true) == LoadStep::Finish,
        load_after(LoadStep::Begin, false) == LoadStep::Fail,
        load_after(LoadStep::Commit, false) == LoadStep::Fail,
        step == LoadStep::Finish || step == LoadStep::Fail ==> load_after(step, ok) == step,
{
}

/// The value of a setting as the configuration shows it; anything but `true`
/// and `false` leaves the default.
pub fn bool_setting(shown: Option<&str>, default: bool) -> (r: bool)
    ensures
        r == match shown {
            Some(s) => if text::trimmed(s@) == "true"@ {
                true
            } else if text::trimmed(s@) == "false"@ {
                false
            } else {
                default
            },
            None => default,
        },
{
    proof {
        reveal_strlit("true");
        reveal_strlit("false");
    }
    match shown {
        Some(s) => {
            let value = text::trim(s);
            if text::same_text(value.as_str(), "true") {
                true
            } else if text::same_text(value.as_str(), "false") {
                false
            } else {
                default
            }
        },
        None => default,
    }
}

/// The database is worth vacuuming when at least a quarter of it is free.
pub fn wants_vacuum(pages: u64, free_pages: u64) -> (r: bool)
    ensures
        r == (4 * free_pages >= pages),
        free_pages > pages / 4 ==> r,
        free_pages < pages / 4 ==> !r,
{
    4 * (free_pages as u128) >= pages as u128
}

} // verus!
