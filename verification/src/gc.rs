//! What the garbage collector decides: which nodes are roots, which paths are
//! garbage, what to report and what to delete next.
use crate::graph;
use crate::graph::BasenameIndex;
use crate::graph::StoreGraph;
use crate::live_set::LiveSet;
use crate::paths;
use crate::text;
use vstd::hash_set::StringHashSet;
use vstd::prelude::*;
use vstd::utf8;

verus! {

/// Length of the hash part of a store path's name.
pub const HASH_LEN: usize = 32;

/// The directory of shared files inside the store.
pub open spec fn links_name() -> Seq<char> {
    ".links"@
}

/// The text made of the first 32 bytes of `name`.
pub open spec fn hash_of(name: Seq<char>) -> Seq<char> {
    utf8::decode_utf8(utf8::encode_utf8(name).subrange(0, 32))
}

/// `name` has a hash part that a dash ends.
pub open spec fn has_hash_part(name: Seq<char>) -> bool {
    let bytes = utf8::encode_utf8(name);
    bytes.len() > 32 && bytes[32] == 45u8
}

/// `name` is long enough for a hash part and can be split behind it.
pub open spec fn has_hash_boundary(name: Seq<char>) -> bool {
    let bytes = utf8::encode_utf8(name);
    bytes.len() >= 32 && utf8::is_char_boundary(bytes, 32)
}

proof fn lemma_dash_is_boundary(name: Seq<char>)
    requires
        has_hash_part(name),
    ensures
        has_hash_boundary(name),
{
    let bytes = utf8::encode_utf8(name);
    utf8::encode_utf8_valid_utf8(name);
    utf8::is_char_boundary_iff_not_is_continuation_byte(bytes, 32);
    assert(!utf8::is_continuation_byte(45u8)) by (bit_vector);
}

/// The hash part of `name`.
fn hash_part(name: &str) -> (r: String)
    requires
        has_hash_boundary(name@),
    ensures
        r@ == hash_of(name@),
{
    let (head, _tail) = name.split_at(HASH_LEN);
    proof {
        utf8::encode_utf8_decode_utf8(head@);
    }
    head.to_owned()
}

/// What the temp roots of running builds keep.
pub struct TempRootSet {
    /// Names of temp roots that are not in the graph.
    pub basenames: StringHashSet,
    /// Hash parts of all temp roots. Sibling files of an active build
    /// (`<path>.lock`, `<path>.chroot`, `<path>.check`) share its hash part.
    pub hashes: StringHashSet,
    /// Nodes of temp roots that are in the graph.
    pub idxs: Vec<u32>,
}

/// Some temp root is the store path with the name `b`.
pub open spec fn is_temp_root(temp_roots: Seq<Seq<char>>, prefix: Seq<char>, b: Seq<char>) -> bool {
    exists|i: int|
        0 <= i < temp_roots.len() && text::after_prefix(#[trigger] temp_roots[i], prefix) == Some(b)
}

impl TempRootSet {
    /// The set holds exactly what `temp_roots` keep.
    pub open spec fn describes(
        &self,
        temp_roots: Seq<Seq<char>>,
        prefix: Seq<char>,
        known: Map<Seq<char>, u32>,
    ) -> bool {
        &&& forall|b: Seq<char>| #[trigger]
            self.basenames@.contains(b) <==> is_temp_root(temp_roots, prefix, b)
                && !known.contains_key(b)
        &&& forall|b: Seq<char>| #[trigger]
            is_temp_root(temp_roots, prefix, b) && has_hash_part(b) ==> self.hashes@.contains(
                hash_of(b),
            )
        &&& forall|h: Seq<char>| #[trigger]
            self.hashes@.contains(h) ==> exists|b: Seq<char>| #[trigger]
                is_temp_root(temp_roots, prefix, b) && has_hash_part(b) && hash_of(b) == h
        &&& forall|m: u32| #[trigger]
            self.idxs@.contains(m) <==> exists|b: Seq<char>| #[trigger]
                is_temp_root(temp_roots, prefix, b) && known.contains_key(b) && known[b] == m
    }
}

proof fn lemma_temp_root_push(
    temp_roots: Seq<Seq<char>>,
    prefix: Seq<char>,
    i: int,
    b: Seq<char>,
)
    requires
        0 <= i < temp_roots.len(),
    ensures
        is_temp_root(temp_roots.take(i + 1), prefix, b) <==> is_temp_root(
            temp_roots.take(i),
            prefix,
            b,
        ) || text::after_prefix(temp_roots[i], prefix) == Some(b),
{
    let now = temp_roots.take(i + 1);
    let was = temp_roots.take(i);
    if is_temp_root(was, prefix, b) {
        let j = choose|j: int|
            0 <= j < was.len() && text::after_prefix(#[trigger] was[j], prefix) == Some(b);
        assert(now[j] == was[j]);
    }
    if text::after_prefix(temp_roots[i], prefix) == Some(b) {
        assert(now[i] == temp_roots[i]);
    }
    if is_temp_root(now, prefix, b) {
        let j = choose|j: int|
            0 <= j < now.len() && text::after_prefix(#[trigger] now[j], prefix) == Some(b);
        if j < i {
            assert(was[j] == now[j]);
        }
    }
}

/// Sort out the temp roots found on disk. Some may name paths registered
/// after the graph was read; those are kept by name.
pub fn classify_temp_roots(temp_roots: &[String], idx: &BasenameIndex) -> (r: TempRootSet)
    ensures
        r.describes(text::views(temp_roots@), idx.store_prefix@, idx.map@),
{
    let ghost all = text::views(temp_roots@);
    let ghost prefix = idx.store_prefix@;
    let ghost known = idx.map@;
    let mut r = TempRootSet {
        basenames: StringHashSet::new(),
        hashes: StringHashSet::new(),
        idxs: Vec::new(),
    };
    let mut i: usize = 0;
    while i < temp_roots.len()
        invariant
            all == text::views(temp_roots@),
            prefix == idx.store_prefix@,
            known == idx.map@,
            i <= temp_roots@.len(),
            r.describes(all.take(i as int), prefix, known),
        decreases temp_roots@.len() - i,
    {
        let ghost done = all.take(i as int);
        let ghost next = all.take(i + 1);
        let ghost names0 = r.basenames@;
        let ghost hashes0 = r.hashes@;
        let ghost idxs0 = r.idxs@;
        let ghost found = text::after_prefix(all[i as int], prefix);
        if let Some(b) = text::strip_prefix(temp_roots[i].as_str(), idx.store_prefix.as_str()) {
            let bytes = b.as_str().as_bytes();
            if bytes.len() > HASH_LEN && bytes[HASH_LEN] == 45 {
                proof {
                    lemma_dash_is_boundary(b@);
                }
                r.hashes.insert(hash_part(b.as_str()));
            }
            match idx.idx_of_basename(b.as_str()) {
                Some(m) => {
                    r.idxs.push(m);
                },
                None => {
                    r.basenames.insert(b);
                },
            }
        }
        proof {
            assert forall|b: Seq<char>| #[trigger] is_temp_root(next, prefix, b) <==> is_temp_root(
                done,
                prefix,
                b,
            ) || found == Some(b) by {
                lemma_temp_root_push(all, prefix, i as int, b);
            }
            assert forall|b: Seq<char>| #[trigger] r.basenames@.contains(b) <==> is_temp_root(
                next,
                prefix,
                b,
            ) && !known.contains_key(b) by {
                assert(names0.contains(b) <==> is_temp_root(done, prefix, b)
                    && !known.contains_key(b));
            }
            assert forall|b: Seq<char>| #[trigger]
                is_temp_root(next, prefix, b) && has_hash_part(b) implies r.hashes@.contains(
                hash_of(b),
            ) by {
                if is_temp_root(done, prefix, b) {
                    assert(hashes0.contains(hash_of(b)));
                }
            }
            assert forall|h: Seq<char>| #[trigger] r.hashes@.contains(h) implies exists|b: Seq<char>|
             #[trigger]
                is_temp_root(next, prefix, b) && has_hash_part(b) && hash_of(b) == h by {
                if hashes0.contains(h) {
                    let b = choose|b: Seq<char>| #[trigger]
                        is_temp_root(done, prefix, b) && has_hash_part(b) && hash_of(b) == h;
                    assert(is_temp_root(next, prefix, b));
                } else {
                    assert(is_temp_root(next, prefix, found->0));
                }
            }
            assert forall|m: u32| #[trigger] r.idxs@.contains(m) <==> exists|b: Seq<char>|
             #[trigger]
                is_temp_root(next, prefix, b) && known.contains_key(b) && known[b] == m by {
                if idxs0.contains(m) {
                    let j = choose|j: int| 0 <= j < idxs0.len() && idxs0[j] == m;
                    assert(r.idxs@[j] == m);
                    let b = choose|b: Seq<char>| #[trigger]
                        is_temp_root(done, prefix, b) && known.contains_key(b) && known[b] == m;
                    assert(is_temp_root(next, prefix, b));
                }
                if r.idxs@.contains(m) && !idxs0.contains(m) {
                    let j = choose|j: int| 0 <= j < r.idxs@.len() && r.idxs@[j] == m;
                    if j < idxs0.len() {
                        assert(idxs0[j] == m);
                    }
                    assert(is_temp_root(next, prefix, found->0));
                }
                if exists|b: Seq<char>| #[trigger]
                    is_temp_root(next, prefix, b) && known.contains_key(b) && known[b] == m {
                    let b = choose|b: Seq<char>| #[trigger]
                        is_temp_root(next, prefix, b) && known.contains_key(b) && known[b] == m;
                    if is_temp_root(done, prefix, b) {
                        assert(idxs0.contains(m));
                        let j = choose|j: int| 0 <= j < idxs0.len() && idxs0[j] == m;
                        assert(r.idxs@[j] == m);
                    } else {
                        assert(found == Some(b));
                        assert(r.idxs@[idxs0.len() as int] == m);
                    }
                }
            }
        }
        i += 1;
    }
    assert(all.take(i as int) =~= all);
    r
}

/// An entry of the store directory that is neither a valid path nor kept by a
/// temp root.
pub open spec fn is_unknown(
    name: Seq<char>,
    known: Map<Seq<char>, u32>,
    basenames: Set<Seq<char>>,
    hashes: Set<Seq<char>>,
) -> bool {
    &&& name != links_name()
    &&& !known.contains_key(name)
    &&& !basenames.contains(name)
    &&& !(has_hash_boundary(name) && hashes.contains(hash_of(name)))
}

/// True when the store directory entry `name` is garbage that the database
/// does not know.
pub fn is_unknown_entry(name: &str, idx: &BasenameIndex, temp: &TempRootSet) -> (r: bool)
    ensures
        r == is_unknown(name@, idx.map@, temp.basenames@, temp.hashes@),
{
    if text::same_text(name, ".links") {
        return false;
    }
    if idx.idx_of_basename(name).is_some() || temp.basenames.contains(name) {
        return false;
    }
    let bytes = name.as_bytes();
    if bytes.len() >= HASH_LEN && name.is_char_boundary(HASH_LEN) {
        let hash = hash_part(name);
        !temp.hashes.contains(hash.as_str())
    } else {
        true
    }
}

/// An entry whose name is not text cannot be in the database, which stores
/// text, nor be named by a client: it is always garbage.
pub open spec fn is_unknown_raw(
    raw: Seq<u8>,
    known: Map<Seq<char>, u32>,
    basenames: Set<Seq<char>>,
    hashes: Set<Seq<char>>,
) -> bool {
    match text::decoded(raw) {
        Some(name) => is_unknown(name, known, basenames, hashes),
        None => true,
    }
}

/// The entries of the store directory, given by their raw names, that the
/// database does not know and no temp root keeps.
pub fn unknown_on_disk(
    entries: &[Vec<u8>],
    idx: &BasenameIndex,
    temp: &TempRootSet,
) -> (r: Vec<Vec<u8>>)
    ensures
        paths::raw_views(r@) == paths::raw_views(entries@).filter(
            |raw: Seq<u8>| is_unknown_raw(raw, idx.map@, temp.basenames@, temp.hashes@),
        ),
{
    let ghost all = paths::raw_views(entries@);
    let ghost garbage = |raw: Seq<u8>|
        is_unknown_raw(raw, idx.map@, temp.basenames@, temp.hashes@);
    let mut r: Vec<Vec<u8>> = Vec::new();
    let mut i: usize = 0;
    proof {
        assert(all.take(0).filter(garbage) =~= Seq::empty()) by {
            reveal(Seq::filter);
        }
        assert(paths::raw_views(r@) =~= Seq::empty());
    }
    while i < entries.len()
        invariant
            all == paths::raw_views(entries@),
            garbage == (|raw: Seq<u8>|
                is_unknown_raw(raw, idx.map@, temp.basenames@, temp.hashes@)),
            i <= entries@.len(),
            paths::raw_views(r@) == all.take(i as int).filter(garbage),
        decreases entries@.len() - i,
    {
        let ghost r0 = r@;
        proof {
            assert(all.take(i + 1) =~= all.take(i as int).push(entries@[i as int]@));
            all.take(i as int).lemma_filter_push(entries@[i as int]@, garbage);
        }
        let keep = match text::decode_text(&entries[i]) {
            Some(name) => is_unknown_entry(name.as_str(), idx, temp),
            None => true,
        };
        if keep {
            r.push(text::copy_bytes(&entries[i]));
            assert(paths::raw_views(r@) =~= paths::raw_views(r0).push(entries@[i as int]@));
        }
        i += 1;
    }
    assert(all.take(i as int) =~= all);
    r
}

/// Why a collection was refused.
pub enum GcRefusal {
    /// No path of the database lies in the store directory. Holds one of them.
    StoreDirMismatch(String),
}

/// Refuse to collect when the store directory matches no path of the
/// database: every root lookup would miss and every path would look dead.
pub fn check_store_dir(graph: &StoreGraph, idx: &BasenameIndex) -> (r: Result<(), GcRefusal>)
    requires
        graph.wf(),
        idx.indexes(graph.paths@, graph.store_prefix@),
    ensures
        r is Err <==> graph.size() > 0 && forall|i: int|
            0 <= i < graph.size() ==> !text::starts_with(
                (#[trigger] graph.paths@[i])@,
                graph.store_prefix@,
            ),
        r matches Err(GcRefusal::StoreDirMismatch(path)) ==> path@ == graph.paths@[0]@,
{
    if !graph.is_empty() && idx.is_empty() {
        proof {
            assert forall|i: int| 0 <= i < graph.size() implies !text::starts_with(
                (#[trigger] graph.paths@[i])@,
                graph.store_prefix@,
            ) by {
                if text::starts_with(graph.paths@[i]@, graph.store_prefix@) {
                    let b = text::after_prefix(graph.paths@[i]@, graph.store_prefix@)->0;
                    assert(!idx.map@.contains_key(b));
                    assert(graph::none_named(graph.paths@, graph.store_prefix@, b));
                }
            }
        }
        return Err(GcRefusal::StoreDirMismatch(graph.paths[0].clone()));
    }
    proof {
        if graph.size() > 0 {
            let b = choose|b: Seq<char>| #[trigger] idx.map@.contains_key(b);
            assert(idx.map@.contains_key(b));
            let i = idx.map@[b] as int;
            assert(graph::last_named(graph.paths@, graph.store_prefix@, b, i));
            assert(text::starts_with(graph.paths@[i]@, graph.store_prefix@));
        }
    }
    Ok(())
}

/// The nodes that `names` stand for.
pub open spec fn known_nodes(names: Seq<Seq<char>>, known: Map<Seq<char>, u32>) -> Seq<u32>
    decreases names.len(),
{
    if names.len() == 0 {
        Seq::empty()
    } else {
        let rest = known_nodes(names.drop_last(), known);
        if known.contains_key(names.last()) {
            rest.push(known[names.last()])
        } else {
            rest
        }
    }
}

/// The state after the names outside the graph have been protected in turn.
pub open spec fn protect_unknown(
    v: crate::live_set::LiveView,
    names: Seq<Seq<char>>,
    known: Map<Seq<char>, u32>,
) -> crate::live_set::LiveView
    decreases names.len(),
{
    if names.len() == 0 {
        v
    } else {
        let w = protect_unknown(v, names.drop_last(), known);
        if known.contains_key(names.last()) {
            w
        } else {
            w.with_protected_name(names.last())
        }
    }
}

/// Replay the roots that arrived before the graph was read: known paths become
/// ordinary roots, unknown names stay protected.
pub fn replay_early_roots(
    early: &[String],
    idx: &BasenameIndex,
    live: &mut LiveSet,
) -> (r: Vec<u32>)
    requires
        old(live).wf(),
    ensures
        final(live).wf(),
        r@ == known_nodes(text::views(early@), idx.map@),
        forall|paths: Seq<String>| #[trigger]
            idx.indexes(paths, idx.store_prefix@) ==> graph::nodes_below(r@, paths.len() as int),
        final(live)@ == protect_unknown(old(live)@, text::views(early@), idx.map@),
{
    let ghost names = text::views(early@);
    let mut r: Vec<u32> = Vec::new();
    let mut i: usize = 0;
    assert(names.take(0) =~= Seq::empty());
    while i < early.len()
        invariant
            names == text::views(early@),
            i <= early@.len(),
            live.wf(),
            r@ == known_nodes(names.take(i as int), idx.map@),
            forall|paths: Seq<String>| #[trigger]
                idx.indexes(paths, idx.store_prefix@) ==> graph::nodes_below(
                    r@,
                    paths.len() as int,
                ),
            live@ == protect_unknown(old(live)@, names.take(i as int), idx.map@),
        decreases early@.len() - i,
    {
        proof {
            assert(names.take(i + 1).drop_last() =~= names.take(i as int));
            assert(names.take(i + 1).last() == early@[i as int]@);
        }
        match idx.idx_of_basename(early[i].as_str()) {
            Some(m) => {
                proof {
                    assert forall|paths: Seq<String>| #[trigger]
                        idx.indexes(paths, idx.store_prefix@) implies m < paths.len() by {
                        assert(graph::last_named(
                            paths,
                            idx.store_prefix@,
                            early@[i as int]@,
                            m as int,
                        ));
                    }
                }
                r.push(m);
            },
            None => {
                live.protect_unknown_basename(early[i].as_str());
            },
        }
        i += 1;
    }
    assert(names.take(i as int) =~= names);
    r
}

/// True when `m` is kept because it was registered at or after `cutoff`.
pub open spec fn is_recent(times: Seq<i64>, cutoff: Option<i64>, m: u32) -> bool {
    m < times.len() && cutoff is Some && times[m as int] >= cutoff->0
}

/// A path is kept for its age exactly if it was registered at or after the
/// cutoff. So whatever was registered no earlier than a path that is kept is kept
/// too, an earlier cutoff keeps no less, and without a cutoff nothing is kept.
pub proof fn law_recent_paths_are_kept(times: Seq<i64>, cutoff: i64, m: u32, later: u32)
    ensures
        m < times.len() ==> (is_recent(times, Some(cutoff), m) <==> times[m as int] >= cutoff),
        is_recent(times, Some(cutoff), m) ==> m < times.len(),
        later < times.len() && is_recent(times, Some(cutoff), m) && times[later as int]
            >= times[m as int] ==> is_recent(times, Some(cutoff), later),
        forall|earlier: i64|
            earlier <= cutoff && is_recent(times, Some(cutoff), m) ==> #[trigger] is_recent(
                times,
                Some(earlier),
                m,
            ),
        !is_recent(times, None, m),
{
}

/// The roots of a collection and what they keep alive.
pub struct Liveness {
    /// Root nodes, ascending, each once.
    pub roots: Vec<u32>,
    /// Per node: reachable from a root.
    pub alive: Vec<bool>,
}

/// Mark `nodes` in `marks`.
fn mark_nodes(marks: &mut Vec<bool>, nodes: &[u32])
    requires
        graph::nodes_below(nodes@, old(marks)@.len() as int),
    ensures
        final(marks)@.len() == old(marks)@.len(),
        forall|m: u32|
            m < old(marks)@.len() ==> (#[trigger] final(marks)@[m as int] <==> old(
                marks,
            )@[m as int] || nodes@.contains(m)),
{
    let ghost before = marks@;
    let mut i: usize = 0;
    while i < nodes.len()
        invariant
            before == old(marks)@,
            graph::nodes_below(nodes@, before.len() as int),
            i <= nodes@.len(),
            marks@.len() == before.len(),
            forall|m: u32|
                m < before.len() ==> (#[trigger] marks@[m as int] <==> before[m as int] || exists|
                    j: int,
                |
                    0 <= j < i && #[trigger] nodes@[j] == m),
        decreases nodes@.len() - i,
    {
        let n: u32 = nodes[i];
        let ghost marks0 = marks@;
        marks[n as usize] = true;
        proof {
            assert forall|m: u32| m < before.len() implies (#[trigger] marks@[m as int]
                <==> before[m as int] || exists|j: int| 0 <= j < i + 1 && #[trigger] nodes@[j]
                == m) by {
                assert(marks0[m as int] <==> before[m as int] || exists|j: int|
                    0 <= j < i && #[trigger] nodes@[j] == m);
                if m == n {
                    assert(nodes@[i as int] == m);
                }
            }
        }
        i += 1;
    }
}

/// Mark the nodes registered at or after `cutoff`.
fn mark_recent(marks: &mut Vec<bool>, times: &[i64], cutoff: Option<i64>)
    requires
        old(marks)@.len() == times@.len(),
        times@.len() <= u32::MAX,
    ensures
        final(marks)@.len() == old(marks)@.len(),
        forall|m: u32|
            m < old(marks)@.len() ==> (#[trigger] final(marks)@[m as int] <==> old(
                marks,
            )@[m as int] || is_recent(times@, cutoff, m)),
        cutoff matches Some(c) ==> forall|m: u32|
            m < old(marks)@.len() && times@[m as int] >= c ==> #[trigger] final(marks)@[m as int],
        cutoff matches Some(c) ==> forall|m: u32|
            m < old(marks)@.len() && times@[m as int] < c ==> #[trigger] final(marks)@[m as int]
                == old(marks)@[m as int],
        cutoff is None ==> final(marks)@ == old(marks)@,
{
    if let Some(c) = cutoff {
        let ghost before = marks@;
        let mut i: usize = 0;
        while i < times.len()
            invariant
                before == old(marks)@,
                cutoff == Some(c),
                before.len() == times@.len(),
                marks@.len() == before.len(),
                times@.len() <= u32::MAX,
                i <= times@.len(),
                forall|m: u32|
                    m < before.len() ==> (#[trigger] marks@[m as int] <==> before[m as int] || (m
                        < i && is_recent(times@, cutoff, m))),
            decreases times@.len() - i,
        {
            let ghost marks0 = marks@;
            if times[i] >= c {
                marks[i] = true;
            }
            proof {
                assert forall|m: u32| m < before.len() implies (#[trigger] marks@[m as int]
                    <==> before[m as int] || (m < i + 1 && is_recent(times@, cutoff, m))) by {
                    assert(marks0[m as int] <==> before[m as int] || (m < i && is_recent(
                        times@,
                        cutoff,
                        m,
                    )));
                }
            }
            i += 1;
        }
    }
}

/// The marked nodes in ascending order.
pub fn marked_nodes(marks: &[bool]) -> (r: Vec<u32>)
    requires
        marks@.len() <= u32::MAX,
    ensures
        forall|i: int, j: int| 0 <= i < j < r@.len() ==> #[trigger] r@[i] < #[trigger] r@[j],
        forall|m: u32| #[trigger] r@.contains(m) <==> m < marks@.len() && marks@[m as int],
{
    let n: usize = marks.len();
    let mut r: Vec<u32> = Vec::new();
    let mut i: usize = 0;
    while i < n
        invariant
            n == marks@.len(),
            n <= u32::MAX,
            i <= n,
            forall|a: int, b: int| 0 <= a < b < r@.len() ==> #[trigger] r@[a] < #[trigger] r@[b],
            forall|a: int| 0 <= a < r@.len() ==> #[trigger] r@[a] < i,
            forall|m: u32| #[trigger] r@.contains(m) <==> m < i && marks@[m as int],
        decreases n - i,
    {
        let ghost before = r@;
        if marks[i] {
            r.push(i as u32);
        }
        proof {
            assert forall|m: u32| #[trigger] r@.contains(m) <==> m < i + 1 && marks@[m as int] by {
                if before.contains(m) {
                    let j = choose|j: int| 0 <= j < before.len() && before[j] == m;
                    assert(r@[j] == m);
                }
                if m == i && marks@[i as int] {
                    assert(r@[before.len() as int] == m);
                }
                if r@.contains(m) && m != i {
                    let j = choose|j: int| 0 <= j < r@.len() && r@[j] == m;
                    assert(before[j] == m);
                }
            }
        }
        i += 1;
    }
    r
}

/// The collection's roots: the roots found, the replayed ones, the temp roots
/// and the recently registered paths. Everything that they reach is alive.
pub fn compute_liveness(
    graph: &StoreGraph,
    found: &[u32],
    early: &[u32],
    temp: &[u32],
    keep_recent_after: Option<i64>,
) -> (r: Liveness)
    requires
        graph.wf(),
        graph::nodes_below(found@, graph.size()),
        graph::nodes_below(early@, graph.size()),
        graph::nodes_below(temp@, graph.size()),
    ensures
        forall|i: int, j: int|
            0 <= i < j < r.roots@.len() ==> #[trigger] r.roots@[i] < #[trigger] r.roots@[j],
        forall|m: u32| #[trigger]
            r.roots@.contains(m) <==> found@.contains(m) || early@.contains(m) || temp@.contains(m)
                || is_recent(graph.registration_times@, keep_recent_after, m),
        r.alive@.len() == graph.size(),
        forall|m: u32|
            m < graph.size() ==> (#[trigger] r.alive@[m as int] <==> graph.live(r.roots@, m)),
        keep_recent_after matches Some(c) ==> forall|m: u32|
            m < graph.size() && #[trigger] graph.registration_times@[m as int] >= c
                ==> r.roots@.contains(m) && r.alive@[m as int],
        keep_recent_after matches Some(c) ==> forall|m: u32| #[trigger]
            r.roots@.contains(m) && graph.registration_times@[m as int] < c ==> found@.contains(m)
                || early@.contains(m) || temp@.contains(m),
        keep_recent_after is None ==> forall|m: u32| #[trigger]
            r.roots@.contains(m) ==> found@.contains(m) || early@.contains(m) || temp@.contains(m),
        forall|m: u32| #[trigger] r.roots@.contains(m) ==> m < graph.size() && r.alive@[m as int],
{
    let n: usize = graph.len();
    let mut marks: Vec<bool> = vec![false; n];
    mark_nodes(&mut marks, found);
    mark_nodes(&mut marks, early);
    mark_nodes(&mut marks, temp);
    mark_recent(&mut marks, &graph.registration_times, keep_recent_after);
    let roots = marked_nodes(&marks);
    proof {
        assert forall|m: u32| #[trigger] roots@.contains(m) <==> found@.contains(m)
            || early@.contains(m) || temp@.contains(m) || is_recent(
            graph.registration_times@,
            keep_recent_after,
            m,
        ) by {
            if found@.contains(m) {
                let j = choose|j: int| 0 <= j < found@.len() && found@[j] == m;
                assert(found@[j] < graph.size());
            }
            if early@.contains(m) {
                let j = choose|j: int| 0 <= j < early@.len() && early@[j] == m;
                assert(early@[j] < graph.size());
            }
            if temp@.contains(m) {
                let j = choose|j: int| 0 <= j < temp@.len() && temp@[j] == m;
                assert(temp@[j] < graph.size());
            }
            if m < graph.size() {
                assert(marks@[m as int] || !marks@[m as int]);
            }
        }
        assert forall|j: int| 0 <= j < roots@.len() implies #[trigger] roots@[j]
            < graph.size() by {
            assert(roots@.contains(roots@[j]));
        }
    }
    let alive = graph.compute_closure(&roots);
    proof {
        assert forall|m: u32| #[trigger] roots@.contains(m) implies m < graph.size()
            && alive@[m as int] by {
            let j = choose|j: int| 0 <= j < roots@.len() && roots@[j] == m;
            assert(roots@[j] < graph.size());
            law_roots_are_alive(*graph, roots@, m);
        }
        if let Some(c) = keep_recent_after {
            assert forall|m: u32|
                m < graph.size() && #[trigger] graph.registration_times@[m as int]
                    >= c implies roots@.contains(m) && alive@[m as int] by {
                law_recent_paths_are_kept(graph.registration_times@, c, m, m);
                assert(roots@.contains(m));
            }
            assert forall|m: u32| #[trigger]
                roots@.contains(m) && graph.registration_times@[m as int]
                    < c implies found@.contains(m) || early@.contains(m) || temp@.contains(m) by {
                law_recent_paths_are_kept(graph.registration_times@, c, m, m);
            }
        }
    }
    Liveness { roots, alive }
}

/// Alive paths reference alive paths only.
pub proof fn law_alive_is_closed(g: StoreGraph, roots: Seq<u32>, alive: Seq<bool>)
    requires
        g.wf(),
        alive.len() == g.size(),
        forall|m: u32| m < g.size() ==> (#[trigger] alive[m as int] <==> g.live(roots, m)),
    ensures
        g.closed(alive),
{
    assert forall|a: u32, b: u32|
        a < g.size() && alive[a as int] && #[trigger] g.refers(a, b) implies alive[b as int] by {
        g.lemma_refers_below(a, b);
        assert(g.live(roots, a));
        let r = choose|r: u32| #[trigger] roots.contains(r) && g.reaches(r, a);
        g.lemma_reaches_step(r, a, b);
        assert(g.live(roots, b));
    }
}

/// Every root is alive.
pub proof fn law_roots_are_alive(g: StoreGraph, roots: Seq<u32>, m: u32)
    requires
        m < g.size(),
        roots.contains(m),
    ensures
        g.live(roots, m),
{
    g.lemma_reaches_self(m);
}

/// More roots keep no less alive.
pub proof fn law_more_roots_keep_more(g: StoreGraph, few: Seq<u32>, many: Seq<u32>, m: u32)
    requires
        forall|r: u32| #[trigger] few.contains(r) ==> many.contains(r),
        g.live(few, m),
    ensures
        g.live(many, m),
{
    let r = choose|r: u32| #[trigger] few.contains(r) && g.reaches(r, m);
    assert(many.contains(r));
}

proof fn lemma_encode_concat(a: Seq<char>, b: Seq<char>)
    ensures
        utf8::encode_utf8(a + b) == utf8::encode_utf8(a) + utf8::encode_utf8(b),
    decreases a.len(),
{
    if a.len() == 0 {
        assert(a + b =~= b);
        assert(utf8::encode_utf8(a) + utf8::encode_utf8(b) =~= utf8::encode_utf8(b));
    } else {
        lemma_encode_concat(a.drop_first(), b);
        assert((a + b).drop_first() =~= a.drop_first() + b);
        assert(utf8::encode_utf8(a + b) =~= utf8::encode_utf8(a) + utf8::encode_utf8(b));
    }
}

/// No store entry that begins with the hash part of a temp root is garbage:
/// lock files and the like of a running build stay.
pub proof fn law_siblings_of_temp_roots_stay(
    temp: TempRootSet,
    temp_roots: Seq<Seq<char>>,
    prefix: Seq<char>,
    known: Map<Seq<char>, u32>,
    root: Seq<char>,
    rest: Seq<char>,
)
    requires
        temp.describes(temp_roots, prefix, known),
        is_temp_root(temp_roots, prefix, root),
        has_hash_part(root),
    ensures
        !is_unknown(hash_of(root) + rest, known, temp.basenames@, temp.hashes@),
{
    let bytes = utf8::encode_utf8(root);
    let head = bytes.subrange(0, 32);
    lemma_dash_is_boundary(root);
    utf8::encode_utf8_valid_utf8(root);
    utf8::valid_utf8_split(bytes, 32);
    utf8::decode_utf8_encode_utf8(head);
    let h = hash_of(root);
    let name = h + rest;
    lemma_encode_concat(h, rest);
    let all = utf8::encode_utf8(name);
    assert(all.subrange(0, 32) =~= head);
    utf8::encode_utf8_valid_utf8(name);
    utf8::encode_utf8_valid_utf8(rest);
    if all.len() == 32 {
        utf8::is_char_boundary_start_end_of_seq(all);
    } else {
        let tail = utf8::encode_utf8(rest);
        assert(all[32] == tail[0]);
        utf8::is_char_boundary_start_end_of_seq(tail);
        utf8::is_char_boundary_iff_not_is_continuation_byte(tail, 0);
        utf8::is_char_boundary_iff_not_is_continuation_byte(all, 32);
    }
    assert(has_hash_boundary(name));
    assert(hash_of(name) == h);
    assert(temp.hashes@.contains(h));
}

/// A name kept by a temp root or known to the database is never garbage.
pub proof fn law_kept_names_stay(
    temp: TempRootSet,
    temp_roots: Seq<Seq<char>>,
    prefix: Seq<char>,
    known: Map<Seq<char>, u32>,
    name: Seq<char>,
)
    requires
        temp.describes(temp_roots, prefix, known),
        is_temp_root(temp_roots, prefix, name) || known.contains_key(name),
    ensures
        !is_unknown(name, known, temp.basenames@, temp.hashes@),
{
    assert(temp.basenames@.contains(name) <==> is_temp_root(temp_roots, prefix, name)
        && !known.contains_key(name));
}

/// A temp root keeps the store path that it names, letter for letter.
pub proof fn law_temp_roots_are_named_in_full(
    temp_roots: Seq<Seq<char>>,
    prefix: Seq<char>,
    name: Seq<char>,
)
    ensures
        is_temp_root(temp_roots, prefix, name) <==> temp_roots.contains(prefix + name),
{
    if is_temp_root(temp_roots, prefix, name) {
        let i = choose|i: int|
            0 <= i < temp_roots.len() && text::after_prefix(#[trigger] temp_roots[i], prefix)
                == Some(name);
        graph::lemma_prefix_joins(temp_roots[i], prefix, name);
    }
    if temp_roots.contains(prefix + name) {
        let i = choose|i: int| 0 <= i < temp_roots.len() && temp_roots[i] == prefix + name;
        graph::lemma_prefix_joins(temp_roots[i], prefix, name);
    }
}

/// What begins with the 32 characters of a temp root's hash stays:
/// `<hash>-<name>` keeps `<hash>` with anything behind it.
pub proof fn law_hash_of_a_temp_root_keeps(
    temp: TempRootSet,
    temp_roots: Seq<Seq<char>>,
    prefix: Seq<char>,
    known: Map<Seq<char>, u32>,
    hash: Seq<char>,
    name: Seq<char>,
    rest: Seq<char>,
)
    requires
        temp.describes(temp_roots, prefix, known),
        hash.len() == 32,
        forall|i: int|
            0 <= i < 32 ==> '0' <= #[trigger] hash[i] <= '9' || 'a' <= hash[i] <= 'z',
        temp_roots.contains(prefix + (hash + seq!['-'] + name)),
    ensures
        !is_unknown(hash + rest, known, temp.basenames@, temp.hashes@),
{
    let root = hash + seq!['-'] + name;
    let dash = seq!['-'];
    let tail = dash + name;
    assert(utf8::is_ascii_chars(hash)) by {
        assert forall|i: int| 0 <= i < hash.len() implies (0 <= #[trigger] hash[i] as nat) && (
        hash[i] as nat) < 128 by {
            assert('0' <= hash[i] <= '9' || 'a' <= hash[i] <= 'z');
        }
    }
    assert(utf8::is_ascii_chars(dash));
    utf8::is_ascii_chars_encode_utf8(hash);
    utf8::is_ascii_chars_encode_utf8(dash);
    lemma_encode_concat(hash + dash, name);
    lemma_encode_concat(hash, dash);
    let bytes = utf8::encode_utf8(root);
    let head = utf8::encode_utf8(hash);
    assert(utf8::encode_utf8(dash).len() == 1);
    assert(bytes[32] == utf8::encode_utf8(dash)[0]);
    assert(utf8::encode_utf8(dash)[0] == 45u8);
    assert(bytes.subrange(0, 32) =~= head);
    utf8::encode_utf8_decode_utf8(hash);
    assert(hash_of(root) == hash);
    law_temp_roots_are_named_in_full(temp_roots, prefix, root);
    law_siblings_of_temp_roots_stay(temp, temp_roots, prefix, known, root, rest);
}

/// Everything else is garbage: an entry that is not the directory of links, has
/// no row, is no temp root, and shares its first 32 bytes with no temp root in
/// which a dash follows them. So is an entry whose name is not text.
pub proof fn law_strays_are_garbage(
    temp: TempRootSet,
    temp_roots: Seq<Seq<char>>,
    prefix: Seq<char>,
    known: Map<Seq<char>, u32>,
    name: Seq<char>,
    raw: Seq<u8>,
)
    requires
        temp.describes(temp_roots, prefix, known),
        name != ".links"@,
        !known.contains_key(name),
        !temp_roots.contains(prefix + name),
        forall|root: Seq<char>| #[trigger]
            temp_roots.contains(prefix + root) && utf8::encode_utf8(root).len() > 32
                && utf8::encode_utf8(root)[32] == 45u8 && utf8::encode_utf8(name).len() >= 32
                ==> utf8::encode_utf8(root).subrange(0, 32) != utf8::encode_utf8(name).subrange(
                0,
                32,
            ),
        !utf8::valid_utf8(raw),
    ensures
        is_unknown(name, known, temp.basenames@, temp.hashes@),
        is_unknown_raw(utf8::encode_utf8(name), known, temp.basenames@, temp.hashes@),
        is_unknown_raw(raw, known, temp.basenames@, temp.hashes@),
{
    utf8::encode_utf8_valid_utf8(name);
    utf8::encode_utf8_decode_utf8(name);
    law_temp_roots_are_named_in_full(temp_roots, prefix, name);
    assert(!temp.basenames@.contains(name));
    if has_hash_boundary(name) && temp.hashes@.contains(hash_of(name)) {
        let root = choose|b: Seq<char>| #[trigger]
            is_temp_root(temp_roots, prefix, b) && has_hash_part(b) && hash_of(b) == hash_of(name);
        law_temp_roots_are_named_in_full(temp_roots, prefix, root);
        lemma_dash_is_boundary(root);
        let a = utf8::encode_utf8(root);
        let b = utf8::encode_utf8(name);
        utf8::encode_utf8_valid_utf8(root);
        utf8::valid_utf8_split(a, 32);
        utf8::valid_utf8_split(b, 32);
        utf8::decode_utf8_encode_utf8(a.subrange(0, 32));
        utf8::decode_utf8_encode_utf8(b.subrange(0, 32));
        assert(temp_roots.contains(prefix + root));
        assert(false);
    }
}

/// The roots replayed are the nodes of the names that have one.
pub proof fn law_known_names_become_roots(
    names: Seq<Seq<char>>,
    known: Map<Seq<char>, u32>,
    m: u32,
)
    ensures
        known_nodes(names, known).contains(m) <==> exists|i: int|
            0 <= i < names.len() && known.contains_key(#[trigger] names[i]) && known[names[i]] == m,
    decreases names.len(),
{
    if names.len() > 0 {
        let init = names.drop_last();
        let last = names.len() - 1;
        let all = known_nodes(names, known);
        let rest = known_nodes(init, known);
        law_known_names_become_roots(init, known, m);
        if all.contains(m) {
            let k = choose|k: int| 0 <= k < all.len() && all[k] == m;
            if k < rest.len() {
                assert(rest[k] == m);
                let i = choose|i: int|
                    0 <= i < init.len() && known.contains_key(#[trigger] init[i]) && known[init[i]]
                        == m;
                assert(names[i] == init[i]);
            } else {
                assert(known.contains_key(names[last]) && known[names[last]] == m);
            }
        }
        if exists|i: int|
            0 <= i < names.len() && known.contains_key(#[trigger] names[i]) && known[names[i]]
                == m {
            let i = choose|i: int|
                0 <= i < names.len() && known.contains_key(#[trigger] names[i]) && known[names[i]]
                    == m;
            if i < last {
                assert(init[i] == names[i]);
                let k = choose|k: int| 0 <= k < rest.len() && rest[k] == m;
                assert(all[k] == m);
            } else {
                assert(all[rest.len() as int] == m);
            }
        }
    }
}

/// Where every entry of the store directory has a row, but for the directory of
/// links, none of them is garbage that the database does not know, so that a
/// collection deletes dead paths alone.
pub proof fn law_entries_with_rows_are_no_strays(
    entries: Seq<Seq<u8>>,
    known: Map<Seq<char>, u32>,
    basenames: Set<Seq<char>>,
    hashes: Set<Seq<char>>,
)
    requires
        forall|i: int|
            0 <= i < entries.len() ==> {
                &&& text::decoded(#[trigger] entries[i]) is Some
                &&& known.contains_key(text::decoded(entries[i])->0) || text::decoded(
                    entries[i],
                )->0 == links_name()
            },
    ensures
        entries.filter(|raw: Seq<u8>| is_unknown_raw(raw, known, basenames, hashes)).len() == 0,
    decreases entries.len(),
{
    reveal(Seq::filter);
    if entries.len() > 0 {
        let init = entries.drop_last();
        assert forall|i: int| 0 <= i < init.len() implies {
            &&& text::decoded(#[trigger] init[i]) is Some
            &&& known.contains_key(text::decoded(init[i])->0) || text::decoded(init[i])->0
                == links_name()
        } by {
            assert(init[i] == entries[i]);
        }
        law_entries_with_rows_are_no_strays(init, known, basenames, hashes);
        assert(text::decoded(entries[entries.len() - 1]) is Some);
    }
}

/// What a dry run lists after the first `i` nodes of `dead`, and the sum of
/// their sizes. Listing stops once the sum reaches `max`.
pub open spec fn listed(
    dead: Seq<u32>,
    sizes: Seq<u64>,
    protected: Seq<bool>,
    max: u64,
    i: int,
) -> (Seq<u32>, int)
    decreases i,
{
    if i <= 0 {
        (Seq::empty(), 0)
    } else {
        let (nodes, sum) = listed(dead, sizes, protected, max, i - 1);
        let node = dead[i - 1];
        if sum >= max || protected[node as int] {
            (nodes, sum)
        } else {
            (nodes.push(node), sum + sizes[node as int])
        }
    }
}

proof fn lemma_listed_grows(
    dead: Seq<u32>,
    sizes: Seq<u64>,
    protected: Seq<bool>,
    max: u64,
    i: int,
    j: int,
)
    requires
        0 <= i <= j,
    ensures
        0 <= listed(dead, sizes, protected, max, i).1 <= listed(
            dead,
            sizes,
            protected,
            max,
            j,
        ).1,
        listed(dead, sizes, protected, max, i).1 >= max ==> listed(
            dead,
            sizes,
            protected,
            max,
            i,
        ) == listed(dead, sizes, protected, max, j),
    decreases j,
{
    if i < j {
        lemma_listed_grows(dead, sizes, protected, max, i, j - 1);
    } else if i > 0 {
        lemma_listed_grows(dead, sizes, protected, max, i - 1, i - 1);
    }
}

/// As long as the sizes stay below the limit, a dry run lists every dead node
/// that is not protected.
pub proof fn law_report_lists_all_garbage(
    dead: Seq<u32>,
    sizes: Seq<u64>,
    protected: Seq<bool>,
    max: u64,
    i: int,
)
    requires
        0 <= i <= dead.len(),
        listed(dead, sizes, protected, max, i).1 < max,
    ensures
        listed(dead, sizes, protected, max, i).0 == dead.take(i).filter(
            |n: u32| !protected[n as int],
        ),
    decreases i,
{
    let p = |n: u32| !protected[n as int];
    if i > 0 {
        lemma_listed_grows(dead, sizes, protected, max, i - 1, i);
        law_report_lists_all_garbage(dead, sizes, protected, max, i - 1);
        assert(dead.take(i) =~= dead.take(i - 1).push(dead[i - 1]));
        dead.take(i - 1).lemma_filter_push(dead[i - 1], p);
    } else {
        reveal(Seq::filter);
        assert(dead.take(0).filter(p) =~= Seq::<u32>::empty());
    }
}

/// What a dry run lists adds up to the sum that it gives, lists no protected
/// node, and stops as soon as the limit is reached: without the last node the
/// limit would not be.
pub proof fn law_report_stops_at_the_limit(
    dead: Seq<u32>,
    sizes: Seq<u64>,
    protected: Seq<bool>,
    max: u64,
    i: int,
)
    requires
        0 <= i <= dead.len(),
    ensures
        ({
            let (nodes, sum) = listed(dead, sizes, protected, max, i);
            &&& sum == size_sum(nodes, sizes, 0, nodes.len() as int)
            &&& forall|k: int|
                0 <= k < nodes.len() ==> dead.contains(#[trigger] nodes[k])
                    && !protected[nodes[k] as int]
            &&& nodes.len() > 0 ==> sum - sizes[nodes.last() as int] < max
            &&& nodes.len() == 0 ==> sum == 0
        }),
    decreases i,
{
    if i > 0 {
        law_report_stops_at_the_limit(dead, sizes, protected, max, i - 1);
        let (was, sum) = listed(dead, sizes, protected, max, i - 1);
        let (nodes, now) = listed(dead, sizes, protected, max, i);
        let node = dead[i - 1];
        if !(sum >= max || protected[node as int]) {
            lemma_size_sum_prefix(was, nodes, sizes, was.len() as int);
            assert forall|k: int| 0 <= k < nodes.len() implies dead.contains(#[trigger] nodes[k])
                && !protected[nodes[k] as int] by {
                if k < was.len() {
                    assert(nodes[k] == was[k]);
                } else {
                    assert(dead[i - 1] == nodes[k]);
                }
            }
        }
    }
}

proof fn lemma_size_sum_prefix(a: Seq<u32>, b: Seq<u32>, sizes: Seq<u64>, n: int)
    requires
        0 <= n <= a.len(),
        n <= b.len(),
        forall|i: int| 0 <= i < n ==> a[i] == b[i],
    ensures
        size_sum(a, sizes, 0, n) == size_sum(b, sizes, 0, n),
    decreases n,
{
    if n > 0 {
        lemma_size_sum_prefix(a, b, sizes, n - 1);
    }
}

/// What a dry run would delete.
pub struct DryRun {
    /// Dead nodes, in the order in which they are listed.
    pub nodes: Vec<u32>,
    /// Sum of their sizes.
    pub estimated: u64,
    /// Raw names on disk that the database does not know.
    pub names: Vec<Vec<u8>>,
}

/// Report what a collection would delete, leaving out what clients have
/// protected meanwhile.
pub fn dry_run_report(
    graph: &StoreGraph,
    dead: &[u32],
    protected: &[bool],
    unknown: &[Vec<u8>],
    protected_unknown: &[String],
    max: u64,
) -> (r: DryRun)
    requires
        graph.wf(),
        graph::nodes_below(dead@, graph.size()),
        protected@.len() == graph.size(),
        listed(dead@, graph.nar_sizes@, protected@, max, dead@.len() as int).1 <= u64::MAX,
    ensures
        (r.nodes@, r.estimated as int) == listed(
            dead@,
            graph.nar_sizes@,
            protected@,
            max,
            dead@.len() as int,
        ),
        paths::raw_views(r.names@) == paths::raw_views(unknown@).filter(
            |raw: Seq<u8>| !is_protected_name(raw, text::views(protected_unknown@)),
        ),
{
    let mut nodes: Vec<u32> = Vec::new();
    let mut estimated: u64 = 0;
    let mut i: usize = 0;
    while i < dead.len() && estimated < max
        invariant
            graph.wf(),
            graph::nodes_below(dead@, graph.size()),
            protected@.len() == graph.size(),
            listed(dead@, graph.nar_sizes@, protected@, max, dead@.len() as int).1 <= u64::MAX,
            i <= dead@.len(),
            (nodes@, estimated as int) == listed(
                dead@,
                graph.nar_sizes@,
                protected@,
                max,
                i as int,
            ),
        decreases dead@.len() - i,
    {
        let node: u32 = dead[i];
        proof {
            lemma_listed_grows(
                dead@,
                graph.nar_sizes@,
                protected@,
                max,
                i + 1,
                dead@.len() as int,
            );
        }
        if !protected[node as usize] {
            estimated = estimated + graph.nar_sizes[node as usize];
            nodes.push(node);
        }
        i += 1;
    }
    proof {
        lemma_listed_grows(
            dead@,
            graph.nar_sizes@,
            protected@,
            max,
            i as int,
            dead@.len() as int,
        );
    }
    let names = unprotected_names(unknown, protected_unknown);
    DryRun { nodes, estimated, names }
}

/// True when the sizes that a dry run adds up fit in 64 bits.
pub fn dry_run_fits(graph: &StoreGraph, dead: &[u32], protected: &[bool], max: u64) -> (r: bool)
    requires
        graph.wf(),
        graph::nodes_below(dead@, graph.size()),
        protected@.len() == graph.size(),
    ensures
        r == (listed(dead@, graph.nar_sizes@, protected@, max, dead@.len() as int).1
            <= u64::MAX),
{
    let mut estimated: u64 = 0;
    let mut i: usize = 0;
    while i < dead.len() && estimated < max
        invariant
            graph.wf(),
            graph::nodes_below(dead@, graph.size()),
            protected@.len() == graph.size(),
            i <= dead@.len(),
            estimated == listed(dead@, graph.nar_sizes@, protected@, max, i as int).1,
        decreases dead@.len() - i,
    {
        let node: u32 = dead[i];
        proof {
            lemma_listed_grows(
                dead@,
                graph.nar_sizes@,
                protected@,
                max,
                i + 1,
                dead@.len() as int,
            );
        }
        if !protected[node as usize] {
            match estimated.checked_add(graph.nar_sizes[node as usize]) {
                Some(sum) => {
                    estimated = sum;
                },
                None => {
                    return false;
                },
            }
        }
        i += 1;
    }
    proof {
        lemma_listed_grows(
            dead@,
            graph.nar_sizes@,
            protected@,
            max,
            i as int,
            dead@.len() as int,
        );
    }
    true
}

/// The raw name is text, and clients have protected it.
pub open spec fn is_protected_name(raw: Seq<u8>, protected: Seq<Seq<char>>) -> bool {
    text::decoded(raw) is Some && protected.contains(text::decoded(raw)->0)
}

/// Exactly the names that clients have protected, letter for letter and of any
/// length, are left out of a report. A name that is not text is never protected.
pub proof fn law_protected_names_are_left_out(
    name: Seq<char>,
    raw: Seq<u8>,
    protected: Seq<Seq<char>>,
    unknown: Seq<Seq<u8>>,
)
    ensures
        is_protected_name(utf8::encode_utf8(name), protected) <==> protected.contains(name),
        !utf8::valid_utf8(raw) ==> !is_protected_name(raw, protected),
        unknown.filter(|u: Seq<u8>| !is_protected_name(u, protected)).contains(
            utf8::encode_utf8(name),
        ) <==> unknown.contains(utf8::encode_utf8(name)) && !protected.contains(name),
{
    utf8::encode_utf8_valid_utf8(name);
    utf8::encode_utf8_decode_utf8(name);
    let free = |u: Seq<u8>| !is_protected_name(u, protected);
    let bytes = utf8::encode_utf8(name);
    if unknown.filter(free).contains(bytes) {
        unknown.lemma_filter_contains_rev(free, bytes);
    }
    if unknown.contains(bytes) && free(bytes) {
        let k = choose|k: int| 0 <= k < unknown.len() && unknown[k] == bytes;
        unknown.lemma_filter_contains(free, k);
    }
}

/// The texts of `v` as a set.
fn name_set(v: &[String]) -> (r: StringHashSet)
    ensures
        forall|n: Seq<char>| #[trigger] r@.contains(n) <==> text::views(v@).contains(n),
{
    let mut r = StringHashSet::new();
    let mut k: usize = 0;
    while k < v.len()
        invariant
            k <= v@.len(),
            forall|n: Seq<char>| #[trigger]
                r@.contains(n) <==> text::views(v@).take(k as int).contains(n),
        decreases v@.len() - k,
    {
        r.insert(v[k].clone());
        proof {
            let was = text::views(v@).take(k as int);
            let now = text::views(v@).take(k + 1);
            assert(now =~= was.push(v@[k as int]@));
            assert forall|n: Seq<char>| #[trigger] r@.contains(n) <==> now.contains(n) by {
                if was.contains(n) {
                    let j = choose|j: int| 0 <= j < was.len() && was[j] == n;
                    assert(now[j] == n);
                }
                if n == v@[k as int]@ {
                    assert(now[k as int] == n);
                }
            }
        }
        k += 1;
    }
    assert(text::views(v@).take(k as int) =~= text::views(v@));
    r
}

/// The names of `unknown` that are not protected.
fn unprotected_names(unknown: &[Vec<u8>], protected: &[String]) -> (r: Vec<Vec<u8>>)
    ensures
        paths::raw_views(r@) == paths::raw_views(unknown@).filter(
            |raw: Seq<u8>| !is_protected_name(raw, text::views(protected@)),
        ),
{
    let ghost all = paths::raw_views(unknown@);
    let ghost free = |raw: Seq<u8>| !is_protected_name(raw, text::views(protected@));
    let kept = name_set(protected);
    let mut r: Vec<Vec<u8>> = Vec::new();
    let mut i: usize = 0;
    proof {
        assert(all.take(0).filter(free) =~= Seq::empty()) by {
            reveal(Seq::filter);
        }
        assert(paths::raw_views(r@) =~= Seq::empty());
    }
    while i < unknown.len()
        invariant
            all == paths::raw_views(unknown@),
            free == (|raw: Seq<u8>| !is_protected_name(raw, text::views(protected@))),
            forall|n: Seq<char>| #[trigger]
                kept@.contains(n) <==> text::views(protected@).contains(n),
            i <= unknown@.len(),
            paths::raw_views(r@) == all.take(i as int).filter(free),
        decreases unknown@.len() - i,
    {
        let ghost r0 = r@;
        proof {
            assert(all.take(i + 1) =~= all.take(i as int).push(unknown@[i as int]@));
            all.take(i as int).lemma_filter_push(unknown@[i as int]@, free);
        }
        let list = match text::decode_text(&unknown[i]) {
            Some(name) => !kept.contains(name.as_str()),
            None => true,
        };
        if list {
            r.push(text::copy_bytes(&unknown[i]));
            assert(paths::raw_views(r@) =~= paths::raw_views(r0).push(unknown@[i as int]@));
        }
        i += 1;
    }
    assert(all.take(i as int) =~= all);
    r
}

/// Settings of a collection.
pub struct GcOptions {
    pub dry_run: bool,
    /// Stop once this many bytes have been freed.
    pub max_freed: Option<u64>,
    /// Keep paths registered at or after this Unix timestamp.
    pub keep_recent_after: Option<i64>,
    /// Skip vacuuming the database after the collection.
    pub no_vacuum: bool,
    /// Max dead paths invalidated per database transaction. Smaller keeps the
    /// write-ahead log lower; larger means fewer checkpoints. `None` uses the
    /// default.
    pub chunk_size: Option<usize>,
    /// Extra directories scanned for roots, like `gcroots`.
    pub extra_gc_roots_dirs: Vec<String>,
}

impl Default for GcOptions {
    fn default() -> (r: GcOptions)
        ensures
            !r.dry_run,
            r.max_freed is None,
            r.keep_recent_after is None,
            !r.no_vacuum,
            r.chunk_size is None,
            r.extra_gc_roots_dirs@.len() == 0,
    {
        GcOptions {
            dry_run: false,
            max_freed: None,
            keep_recent_after: None,
            no_vacuum: false,
            chunk_size: None,
            extra_gc_roots_dirs: Vec::new(),
        }
    }
}

/// Dead paths per transaction where no size is set.
pub const DEFAULT_CHUNK: usize = 65536;

/// How many paths one transaction may invalidate.
pub open spec fn chunk_limit(chunk_size: Option<usize>) -> int {
    match chunk_size {
        Some(0) => 1,
        Some(n) => n as int,
        None => 65536,
    }
}

/// How many bytes a collection may free.
pub open spec fn freed_limit(max_freed: Option<u64>) -> int {
    match max_freed {
        Some(max) => max as int,
        None => u64::MAX as int,
    }
}

/// The sum of the sizes of `order` from `from` up to `to`.
pub open spec fn size_sum(order: Seq<u32>, sizes: Seq<u64>, from: int, to: int) -> int
    decreases to - from,
{
    if to <= from {
        0
    } else {
        size_sum(order, sizes, from, to - 1) + sizes[order[to - 1] as int]
    }
}

/// `end` closes the chunk that begins at `cursor`: the part after `acyclic` is
/// taken whole; before it the chunk is the shortest that has the full number
/// of paths, may free what remains to be freed, or reaches `acyclic`.
pub open spec fn is_chunk(
    order: Seq<u32>,
    acyclic: int,
    sizes: Seq<u64>,
    cursor: int,
    remaining: int,
    limit: int,
    end: int,
) -> bool {
    if cursor >= acyclic {
        end == order.len()
    } else {
        &&& cursor < end <= acyclic
        &&& end == acyclic || end - cursor == limit || size_sum(order, sizes, cursor, end)
            >= remaining
        &&& forall|e: int|
            cursor < e < end ==> e - cursor < limit && #[trigger] size_sum(order, sizes, cursor, e)
                < remaining
    }
}

/// Where the next chunk of `order` ends, or `None` when nothing is left or
/// enough has been freed. A chunk always ends where it is safe to commit:
/// before the part that must go as a whole, or at the end.
pub fn next_chunk(
    order: &[u32],
    acyclic: usize,
    sizes: &[u64],
    cursor: usize,
    freed_so_far: u64,
    opts: &GcOptions,
) -> (r: Option<usize>)
    requires
        acyclic <= order@.len(),
        cursor <= order@.len(),
        graph::nodes_below(order@, sizes@.len() as int),
    ensures
        r is None <==> cursor == order@.len() || freed_so_far >= freed_limit(opts.max_freed),
        r matches Some(end) ==> {
            &&& cursor < end <= order@.len()
            &&& end <= acyclic || end == order@.len()
            &&& is_chunk(
                order@,
                acyclic as int,
                sizes@,
                cursor as int,
                freed_limit(opts.max_freed) - freed_so_far,
                chunk_limit(opts.chunk_size),
                end as int,
            )
        },
{
    let max: u64 = match opts.max_freed {
        Some(max) => max,
        None => u64::MAX,
    };
    let limit: usize = match opts.chunk_size {
        Some(n) => if n == 0 {
            1
        } else {
            n
        },
        None => DEFAULT_CHUNK,
    };
    if cursor == order.len() || freed_so_far >= max {
        return None;
    }
    if cursor >= acyclic {
        return Some(order.len());
    }
    let remaining: u64 = max - freed_so_far;
    let mut estimated: u64 = 0;
    let mut end: usize = cursor;
    while end < acyclic && estimated < remaining && end - cursor < limit
        invariant
            graph::nodes_below(order@, sizes@.len() as int),
            acyclic <= order@.len(),
            cursor <= end <= acyclic,
            0 < remaining,
            0 < limit,
            end - cursor <= limit,
            estimated == if size_sum(order@, sizes@, cursor as int, end as int) > u64::MAX {
                u64::MAX as int
            } else {
                size_sum(order@, sizes@, cursor as int, end as int)
            },
            forall|e: int|
                cursor < e < end ==> e - cursor < limit && #[trigger] size_sum(
                    order@,
                    sizes@,
                    cursor as int,
                    e,
                ) < remaining,
        decreases acyclic - end,
    {
        let node: u32 = order[end];
        estimated = estimated.saturating_add(sizes[node as usize]);
        end += 1;
    }
    Some(end)
}

/// A transaction may remove as many paths as is asked for, but at least one, and
/// 65536 where nothing is asked for. A collection may free what is asked for,
/// and has no limit below 64 bits where nothing is.
pub proof fn law_limits_are_as_asked(n: usize, max: u64)
    ensures
        n >= 1 ==> chunk_limit(Some(n)) == n,
        chunk_limit(Some(0)) == 1,
        chunk_limit(None) == 65536,
        freed_limit(Some(max)) == max,
        freed_limit(None) == 0xffff_ffff_ffff_ffff,
{
}

/// The sizes of two parts of the order that follow each other add up, and one
/// path counts with its own size.
pub proof fn law_sizes_add_up(order: Seq<u32>, sizes: Seq<u64>, from: int, mid: int, to: int)
    requires
        0 <= from <= mid <= to <= order.len(),
    ensures
        size_sum(order, sizes, from, to) == size_sum(order, sizes, from, mid) + size_sum(
            order,
            sizes,
            mid,
            to,
        ),
        size_sum(order, sizes, from, from) == 0,
        from < order.len() ==> size_sum(order, sizes, from, from + 1)
            == sizes[order[from] as int],
        size_sum(order, sizes, from, to) >= 0,
    decreases to - from,
{
    assert(size_sum(order, sizes, from, from) == 0);
    if mid < to {
        law_sizes_add_up(order, sizes, from, mid, to - 1);
    } else if from < mid {
        law_sizes_add_up(order, sizes, from, mid - 1, mid - 1);
    }
}

/// A chunk holds at least one path and no more than the limit. It ends early
/// only where the cyclic part begins or enough is freed, and without its last
/// path it would not free enough. The cyclic part goes in one chunk.
pub proof fn law_chunks_are_full(
    order: Seq<u32>,
    acyclic: int,
    sizes: Seq<u64>,
    cursor: int,
    remaining: int,
    limit: int,
    end: int,
)
    requires
        0 <= cursor < order.len(),
        acyclic <= order.len(),
        limit >= 1,
        is_chunk(order, acyclic, sizes, cursor, remaining, limit, end),
    ensures
        cursor < end <= order.len(),
        cursor >= acyclic ==> end == order.len(),
        cursor < acyclic ==> end <= acyclic && end - cursor <= limit,
        cursor < acyclic && end < acyclic && end - cursor < limit ==> size_sum(
            order,
            sizes,
            cursor,
            end,
        ) >= remaining,
        cursor < acyclic && end > cursor + 1 ==> size_sum(order, sizes, cursor, end - 1)
            < remaining,
{
    if cursor < acyclic && end > cursor + 1 {
        assert(size_sum(order, sizes, cursor, end - 1) < remaining);
    }
}

/// What to do with an entry of the directory of shared files.
pub enum LinkAction {
    /// Nothing in the store uses the file any more.
    Remove,
    /// The file is in use; sharing it saves this many bytes.
    Keep(u64),
}

/// Bytes that sharing one file saves: an entry has one reference from the
/// links directory and one for each store file, so sharing saves all copies
/// but one.
pub open spec fn saved_by_link(nlink: u64, size: u64) -> int {
    if nlink <= 2 {
        0
    } else {
        (nlink - 2) * size
    }
}

/// A shared file with `nlink` names, one of which is its link, stands for one
/// copy less than that and is stored once: all but one of the copies are saved,
/// and each further name saves one more.
pub proof fn law_sharing_saves_all_copies_but_one(nlink: u64, size: u64)
    requires
        nlink >= 2,
    ensures
        saved_by_link(nlink, size) == (nlink - 1) * size - size,
        saved_by_link(nlink, size) == nlink * size - 2 * size,
        nlink < u64::MAX ==> saved_by_link((nlink + 1) as u64, size) == saved_by_link(nlink, size)
            + size,
        saved_by_link(2, size) == 0,
        saved_by_link(1, size) == 0,
{
    assert((nlink - 2) * size == (nlink - 1) * size - size) by (nonlinear_arith);
    assert((nlink - 2) * size == nlink * size - 2 * size) by (nonlinear_arith);
    assert((nlink + 1 - 2) * size == (nlink - 2) * size + size) by (nonlinear_arith);
    assert(0 * size == 0) by (nonlinear_arith);
}

/// Decide on an entry of the directory of shared files by its link count.
pub fn link_action(nlink: u64, size: u64) -> (r: LinkAction)
    requires
        nlink == 1 || saved_by_link(nlink, size) <= u64::MAX,
    ensures
        r == if nlink == 1 {
            LinkAction::Remove
        } else {
            LinkAction::Keep(saved_by_link(nlink, size) as u64)
        },
        r is Remove <==> nlink == 1,
        nlink >= 2 ==> (r matches LinkAction::Keep(saved) && saved == nlink * size - 2 * size),
{
    proof {
        if nlink >= 2 {
            law_sharing_saves_all_copies_but_one(nlink, size);
        }
    }
    if nlink == 1 {
        LinkAction::Remove
    } else if nlink <= 2 {
        LinkAction::Keep(0)
    } else {
        LinkAction::Keep((nlink - 2) * size)
    }
}

/// Bytes on disk of a file with this many blocks.
pub fn disk_bytes(blocks: u64) -> (r: u64)
    requires
        blocks * 512 <= u64::MAX,
    ensures
        r == blocks * 512,
{
    blocks * 512
}

/// Whether an entry that the graph does not know is still to be deleted after
/// its name was looked up once more. A name that is not text cannot have been
/// registered; after a failed lookup the entry is kept.
pub fn still_unknown(is_text: bool, valid: Option<bool>) -> (r: bool)
    ensures
        r == (!is_text || valid == Some(false)),
        is_text && valid != Some(false) ==> !r,
        valid == Some(false) ==> r,
{
    if !is_text {
        return true;
    }
    match valid {
        Some(v) => !v,
        None => false,
    }
}

/// Only a directory can be a build's temporary directory that a builder still
/// holds; it is locked before it is deleted.
pub fn needs_lock(name: &str, is_dir: bool) -> (r: bool)
    ensures
        r == (is_dir && text::starts_with(name@, "tmp-"@)),
        forall|rest: Seq<char>| name@ == #[trigger] ("tmp-"@ + rest) ==> r == is_dir,
        r ==> is_dir,
{
    proof {
        assert forall|rest: Seq<char>| name@ == #[trigger] ("tmp-"@
            + rest) implies text::starts_with(name@, "tmp-"@) by {
            graph::lemma_prefix_joins(name@, "tmp-"@, rest);
        }
    }
    is_dir && text::strip_prefix(name, "tmp-").is_some()
}

/// The name under which the store path `path` lies in the store directory.
pub fn disk_name(path: &str, store_prefix: &str) -> (r: String)
    ensures
        r@ == match text::after_prefix(path@, store_prefix@) {
            Some(name) => name,
            None => path@,
        },
        forall|name: Seq<char>| path@ == #[trigger] (store_prefix@ + name) ==> r@ == name,
{
    proof {
        assert forall|name: Seq<char>| path@ == #[trigger] (store_prefix@
            + name) implies text::after_prefix(path@, store_prefix@) == Some(name) by {
            graph::lemma_prefix_joins(path@, store_prefix@, name);
        }
    }
    match text::strip_prefix(path, store_prefix) {
        Some(name) => name,
        None => path.to_owned(),
    }
}

} // verus!
