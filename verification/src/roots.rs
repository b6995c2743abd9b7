//! Root discovery: which texts found in links, processes and temp root files
//! stand for store paths.
use crate::graph;
use crate::graph::BasenameIndex;
use crate::numbers;
use crate::text;
use crate::text_set;
use crate::text_set::TextSet;
use vstd::prelude::*;
use vstd::utf8;

verus! {

/// A character of a store path's name.
pub open spec fn is_path_char(c: char) -> bool {
    ('0' <= c <= '9') || ('a' <= c <= 'z') || ('A' <= c <= 'Z') || c == '+' || c == '-' || c == '.'
        || c == '_' || c == '?' || c == '='
}

/// A character of the hash part as it is recognised here: a lower-case letter
/// or a digit.
pub open spec fn is_hash_char(c: char) -> bool {
    ('0' <= c <= '9') || ('a' <= c <= 'z')
}

/// `<hash>-<name>`: 32 lower-case letters and digits, a dash, and at least one
/// character of a name.
pub open spec fn is_basename(name: Seq<char>) -> bool {
    &&& name.len() >= 34
    &&& forall|i: int| 0 <= i < 32 ==> is_hash_char(#[trigger] name[i])
    &&& name[32] == '-'
    &&& forall|i: int| 33 <= i < name.len() ==> is_path_char(#[trigger] name[i])
}

/// True for chars allowed in a store path basename.
pub fn is_store_path_char(c: char) -> (r: bool)
    ensures
        r == is_path_char(c),
{
    ('0' <= c && c <= '9') || ('a' <= c && c <= 'z') || ('A' <= c && c <= 'Z') || c == '+' || c
        == '-' || c == '.' || c == '_' || c == '?' || c == '='
}

/// True if `name` matches the store-path basename grammar.
pub fn is_store_path_basename(name: &str) -> (r: bool)
    ensures
        r == is_basename(name@),
{
    let x = text::chars_of(name);
    if x.len() < 34 || x[32] != '-' {
        return false;
    }
    let mut i: usize = 0;
    while i < 32
        invariant
            x@ == name@,
            x@.len() >= 34,
            i <= 32,
            forall|j: int| 0 <= j < i ==> is_hash_char(#[trigger] x@[j]),
        decreases 32 - i,
    {
        let c: char = x[i];
        if !(('0' <= c && c <= '9') || ('a' <= c && c <= 'z')) {
            assert(!is_hash_char(name@[i as int]));
            return false;
        }
        i += 1;
    }
    let mut k: usize = 33;
    while k < x.len()
        invariant
            x@ == name@,
            33 <= k <= x@.len(),
            forall|j: int| 33 <= j < k ==> is_path_char(#[trigger] x@[j]),
        decreases x@.len() - k,
    {
        if !is_store_path_char(x[k]) {
            assert(!is_path_char(name@[k as int]));
            return false;
        }
        k += 1;
    }
    true
}

/// `path` lies below `dir`: what follows `dir` begins with a slash.
pub open spec fn lies_in(dir: Seq<char>, path: Seq<char>) -> bool {
    dir.len() < path.len() && path.take(dir.len() as int) == dir && path[dir.len() as int] == '/'
}

/// True if `path` is inside the store directory (not just a string prefix
/// like `/nix/store-other`).
pub fn is_in_store(store_dir: &str, path: &str) -> (r: bool)
    ensures
        r == lies_in(store_dir@, path@),
{
    let d = text::chars_of(store_dir);
    let p = text::chars_of(path);
    let r = text::chars_at(&p, &d, 0) && d.len() < p.len() && p[d.len()] == '/';
    assert(d@.len() <= p@.len() ==> p@.take(d@.len() as int) =~= p@.subrange(
        0,
        0 + d@.len() as int,
    ));
    r
}

/// The characters of `s` from `from` up to the first slash.
pub open spec fn first_part(s: Seq<char>, from: int) -> Seq<char>
    decreases s.len() - from,
{
    if from >= s.len() || s[from] == '/' {
        Seq::empty()
    } else {
        seq![s[from]] + first_part(s, from + 1)
    }
}

proof fn lemma_first_part(s: Seq<char>, from: int, end: int)
    requires
        0 <= from <= end <= s.len(),
        forall|i: int| from <= i < end ==> #[trigger] s[i] != '/',
        end < s.len() ==> s[end] == '/',
    ensures
        first_part(s, from) == s.subrange(from, end),
    decreases end - from,
{
    if from < end {
        lemma_first_part(s, from + 1, end);
        assert(s[from] != '/');
        assert(s.subrange(from, end) =~= seq![s[from]] + s.subrange(from + 1, end));
    } else {
        assert(s.subrange(from, end) =~= Seq::empty());
    }
}

/// The store path that `path` lies in: the directory, a slash, and the next
/// part of the path if that is a basename.
pub open spec fn store_path_of(dir: Seq<char>, path: Seq<char>) -> Option<Seq<char>> {
    let name = first_part(path, dir.len() as int + 1);
    if lies_in(dir, path) && is_basename(name) {
        Some(dir.push('/') + name)
    } else {
        None
    }
}

/// Extract the top-level store path from a potentially deeper path, e.g.
/// "/nix/store/abc...-foo/bin/bar" -> "/nix/store/abc...-foo". Names that do
/// not look like store paths (`..`, `.links`) give none.
pub fn extract_store_path(store_dir: &str, full_path: &str) -> (r: Option<String>)
    ensures
        match r {
            Some(p) => store_path_of(store_dir@, full_path@) == Some(p@),
            None => store_path_of(store_dir@, full_path@) is None,
        },
{
    if !is_in_store(store_dir, full_path) {
        return None;
    }
    let x = text::chars_of(full_path);
    let d = text::chars_of(store_dir);
    let n: usize = x.len();
    assert(d@.len() < n);
    let from: usize = d.len() + 1;
    let mut end: usize = from;
    while end < n && x[end] != '/'
        invariant
            n == x@.len(),
            from <= end <= n,
            forall|i: int| from <= i < end ==> #[trigger] x@[i] != '/',
        decreases n - end,
    {
        end += 1;
    }
    proof {
        lemma_first_part(x@, from as int, end as int);
    }
    let name = text::text_of(&x, from, end);
    if !is_store_path_basename(name.as_str()) {
        return None;
    }
    let r = text::join3(store_dir, "/", name.as_str());
    proof {
        reveal_strlit("/");
        assert(r@ =~= store_dir@.push('/') + name@);
    }
    Some(r)
}

/// The candidates once `target` was met: the store path that it lies in is
/// added.
pub open spec fn with_target(
    items: Seq<Seq<char>>,
    dir: Seq<char>,
    target: Seq<char>,
) -> Seq<Seq<char>> {
    match store_path_of(dir, target) {
        Some(p) => text_set::with_item(items, p),
        None => items,
    }
}

/// Add an absolute path as an unchecked candidate root if it lies in the store.
pub fn add_unchecked(store_dir: &str, target: &str, unchecked: &mut TextSet)
    requires
        old(unchecked).wf(),
    ensures
        final(unchecked).wf(),
        final(unchecked)@ == with_target(old(unchecked)@, store_dir@, target@),
{
    if let Some(p) = extract_store_path(store_dir, target) {
        unchecked.insert(p.as_str());
    }
}

/// Where the run of name characters that begins at `from` ends.
pub open spec fn run_end(blob: Seq<char>, from: int) -> int
    decreases blob.len() - from,
{
    if from >= blob.len() || !is_path_char(blob[from]) {
        from
    } else {
        run_end(blob, from + 1)
    }
}

proof fn lemma_run_end(blob: Seq<char>, from: int)
    requires
        0 <= from <= blob.len(),
    ensures
        from <= run_end(blob, from) <= blob.len(),
        forall|i: int| from <= i < run_end(blob, from) ==> is_path_char(#[trigger] blob[i]),
    decreases blob.len() - from,
{
    if from < blob.len() && is_path_char(blob[from]) {
        lemma_run_end(blob, from + 1);
    }
}

/// The candidates after `blob` was scanned from `from` on: every occurrence of
/// `prefix`, the store directory and a slash, together with the name
/// characters that follow; the scan goes on behind them.
pub open spec fn scanned(
    items: Seq<Seq<char>>,
    blob: Seq<char>,
    dir: Seq<char>,
    from: int,
) -> Seq<Seq<char>>
    decreases blob.len() - from,
{
    let prefix = dir.push('/');
    if 0 <= from && exists|at: int| text::is_first_at(blob, prefix, from, at) {
        let at = choose|at: int| text::is_first_at(blob, prefix, from, at);
        let after = at + prefix.len();
        let end = run_end(blob, after);
        if end >= after && end <= blob.len() {
            let now = if end > after {
                with_target(items, dir, blob.subrange(at, end))
            } else {
                items
            };
            scanned(now, blob, dir, end)
        } else {
            items
        }
    } else {
        items
    }
}

/// Scan a blob (e.g. environ) for embedded store paths using the
/// store-path char alphabet, not arbitrary delimiters.
pub fn scan_blob_for_store_paths(blob: &str, store_dir: &str, unchecked: &mut TextSet)
    requires
        old(unchecked).wf(),
    ensures
        final(unchecked).wf(),
        final(unchecked)@ == scanned(old(unchecked)@, blob@, store_dir@, 0),
{
    let x = text::chars_of(blob);
    let mut p = text::chars_of(store_dir);
    p.push('/');
    let ghost prefix = store_dir@.push('/');
    let mut from: usize = 0;
    loop
        invariant
            x@ == blob@,
            p@ == prefix,
            prefix == store_dir@.push('/'),
            from <= x@.len(),
            unchecked.wf(),
            scanned(unchecked@, blob@, store_dir@, from as int) == scanned(
                old(unchecked)@,
                blob@,
                store_dir@,
                0,
            ),
        ensures
            unchecked.wf(),
            unchecked@ == scanned(old(unchecked)@, blob@, store_dir@, 0),
        decreases x@.len() - from,
    {
        match text::find_from(&x, &p, from) {
            None => {
                assert(!exists|at: int| text::is_first_at(blob@, prefix, from as int, at));
                break;
            },
            Some(at) => {
                proof {
                    let c = choose|c: int| text::is_first_at(blob@, prefix, from as int, c);
                    assert(text::is_first_at(blob@, prefix, from as int, at as int));
                    assert(c == at) by {
                        if c < at {
                            assert(!text::occurs_at(blob@, prefix, c));
                        }
                        if at < c {
                            assert(!text::occurs_at(blob@, prefix, at as int));
                        }
                    }
                }
                let after: usize = at + p.len();
                let mut end: usize = after;
                proof {
                    lemma_run_end(blob@, after as int);
                }
                while end < x.len() && is_store_path_char(x[end])
                    invariant
                        x@ == blob@,
                        after <= end <= x@.len(),
                        run_end(blob@, end as int) == run_end(blob@, after as int),
                    decreases x@.len() - end,
                {
                    end += 1;
                }
                if end > after {
                    let candidate = text::text_of(&x, at, end);
                    add_unchecked(store_dir, candidate.as_str(), unchecked);
                }
                from = end;
            },
        }
    }
}

proof fn lemma_scan_keeps(
    items: Seq<Seq<char>>,
    blob: Seq<char>,
    dir: Seq<char>,
    from: int,
    s: Seq<char>,
)
    requires
        items.contains(s),
    ensures
        scanned(items, blob, dir, from).contains(s),
    decreases blob.len() - from,
{
    let prefix = dir.push('/');
    if 0 <= from && exists|at: int| text::is_first_at(blob, prefix, from, at) {
        let at = choose|at: int| text::is_first_at(blob, prefix, from, at);
        let after = at + prefix.len();
        let end = run_end(blob, after);
        if end >= after && end <= blob.len() {
            let target = blob.subrange(at, end);
            let now = if end > after {
                with_target(items, dir, target)
            } else {
                items
            };
            if end > after && store_path_of(dir, target) is Some {
                text_set::lemma_with_item(items, store_path_of(dir, target)->0, s);
            }
            lemma_scan_keeps(now, blob, dir, end, s);
        }
    }
}

proof fn lemma_scan_reaches(
    items: Seq<Seq<char>>,
    blob: Seq<char>,
    dir: Seq<char>,
    from: int,
    at: int,
)
    requires
        dir.len() > 0,
        dir[0] == '/',
        0 <= from <= at,
        text::occurs_at(blob, dir.push('/'), at),
        forall|q: int|
            at - dir.len() - 1 < q < at ==> !(#[trigger] text::occurs_at(
                blob,
                dir.push('/'),
                q,
            )),
        is_basename(
            blob.subrange(at + dir.len() + 1, run_end(blob, at + dir.len() + 1)),
        ),
    ensures
        scanned(items, blob, dir, from).contains(
            dir.push('/') + blob.subrange(
                at + dir.len() + 1,
                run_end(blob, at + dir.len() + 1),
            ),
        ),
    decreases at - from,
{
    let prefix = dir.push('/');
    let after = at + prefix.len();
    let end = run_end(blob, after);
    let name = blob.subrange(after, end);
    lemma_run_end(blob, after);
    assert(exists|c: int| text::is_first_at(blob, prefix, from, c)) by {
        lemma_first_exists(blob, prefix, from, at);
    }
    let c = choose|c: int| text::is_first_at(blob, prefix, from, c);
    if c > at {
        assert(!text::occurs_at(blob, prefix, at));
    }
    lemma_run_end(blob, c + prefix.len() as int);
    let c_end = run_end(blob, c + prefix.len() as int);
    let c_target = blob.subrange(c, c_end);
    let now = if c_end > c + prefix.len() {
        with_target(items, dir, c_target)
    } else {
        items
    };
    if c == at {
        let target = blob.subrange(at, end);
        assert(name.len() >= 34);
        assert(target.take(dir.len() as int) =~= dir) by {
            assert forall|i: int| 0 <= i < dir.len() implies target[i] == dir[i] by {
                assert(blob.subrange(at, at + prefix.len())[i] == prefix[i]);
            }
        }
        assert(target[dir.len() as int] == '/') by {
            assert(blob.subrange(at, at + prefix.len())[dir.len() as int] == prefix[dir.len() as int]);
        }
        assert forall|i: int| dir.len() + 1 <= i < target.len() implies #[trigger] target[i]
            != '/' by {
            assert(is_path_char(blob[at + i]));
        }
        lemma_first_part(target, dir.len() as int + 1, target.len() as int);
        assert(target.subrange(dir.len() as int + 1, target.len() as int) =~= name);
        assert(store_path_of(dir, target) == Some(prefix + name));
        text_set::lemma_with_item(items, prefix + name, prefix + name);
        lemma_scan_keeps(now, blob, dir, end, prefix + name);
    } else {
        assert(c <= at - dir.len() - 1) by {
            if c > at - dir.len() - 1 {
                assert(!text::occurs_at(blob, prefix, c));
            }
        }
        assert(blob[at] == '/') by {
            assert(blob.subrange(at, at + prefix.len())[0] == prefix[0]);
        }
        if c_end > at {
            assert(is_path_char(blob[at]));
        }
        lemma_scan_reaches(now, blob, dir, c_end, at);
    }
}

proof fn lemma_first_exists(blob: Seq<char>, prefix: Seq<char>, from: int, at: int)
    requires
        from <= at,
        text::occurs_at(blob, prefix, at),
    ensures
        exists|c: int| text::is_first_at(blob, prefix, from, c),
    decreases at - from,
{
    if exists|j: int| from <= j < at && text::occurs_at(blob, prefix, j) {
        let j = choose|j: int| from <= j < at && text::occurs_at(blob, prefix, j);
        lemma_first_exists(blob, prefix, from, j);
    } else {
        assert(text::is_first_at(blob, prefix, from, at));
    }
}

/// A store path in a blob is found wherever it stands: whatever precedes it, as
/// long as no other mention of the store directory overlaps its own, and
/// whatever follows its name, as long as that cannot belong to the name.
pub proof fn law_scan_finds_embedded_paths(
    items: Seq<Seq<char>>,
    blob: Seq<char>,
    dir: Seq<char>,
    at: int,
)
    requires
        dir.len() > 0,
        dir[0] == '/',
        text::occurs_at(blob, dir.push('/'), at),
        forall|q: int|
            at - dir.len() - 1 < q < at ==> !(#[trigger] text::occurs_at(
                blob,
                dir.push('/'),
                q,
            )),
        is_basename(
            blob.subrange(at + dir.len() + 1, run_end(blob, at + dir.len() + 1)),
        ),
    ensures
        scanned(items, blob, dir, 0).contains(
            dir.push('/') + blob.subrange(
                at + dir.len() + 1,
                run_end(blob, at + dir.len() + 1),
            ),
        ),
{
    lemma_scan_reaches(items, blob, dir, 0, at);
}

/// A path below a store path belongs to that store path.
pub proof fn law_deeper_paths_belong(dir: Seq<char>, name: Seq<char>, rest: Seq<char>)
    requires
        is_basename(name),
        rest.len() == 0 || rest[0] == '/',
    ensures
        store_path_of(dir, dir.push('/') + name + rest) == Some(dir.push('/') + name),
{
    let path = dir.push('/') + name + rest;
    let from = dir.len() as int + 1;
    assert(path.take(dir.len() as int) =~= dir);
    assert forall|i: int| from <= i < from + name.len() implies #[trigger] path[i] != '/' by {
        let c = name[i - from];
        assert(path[i] == c);
        if i - from < 32 {
            assert(is_hash_char(name[i - from]));
        } else if i - from > 32 {
            assert(is_path_char(name[i - from]));
        }
    }
    lemma_first_part(path, from, from + name.len() as int);
    assert(path.subrange(from, from + name.len()) =~= name);
}

/// What to do with a symlink in a directory of roots.
pub enum SymlinkStep {
    /// It points into the store, at this node.
    Root(u32),
    /// It points into the store, but at no valid path.
    Nothing,
    /// It points elsewhere: look one hop further.
    Follow,
}

/// The node that a full path stands for.
pub open spec fn node_of_path(known: Map<Seq<char>, u32>, prefix: Seq<char>, path: Seq<char>) -> Option<
    u32,
> {
    match text::after_prefix(path, prefix) {
        Some(b) => if known.contains_key(b) {
            Some(known[b])
        } else {
            None
        },
        None => None,
    }
}

/// The node of the store path that `target` lies in.
pub open spec fn node_of_target(
    dir: Seq<char>,
    target: Seq<char>,
    known: Map<Seq<char>, u32>,
    prefix: Seq<char>,
) -> Option<u32> {
    match store_path_of(dir, target) {
        Some(p) => node_of_path(known, prefix, p),
        None => None,
    }
}

/// The node of the store path that `target` lies in. Serves the second hop of
/// an indirect root.
pub fn root_of_target(store_dir: &str, target: &str, idx: &BasenameIndex) -> (r: Option<u32>)
    ensures
        r == node_of_target(store_dir@, target@, idx.map@, idx.store_prefix@),
{
    match extract_store_path(store_dir, target) {
        Some(p) => idx.idx_of(p.as_str()),
        None => None,
    }
}

/// Decide on a symlink in a directory of roots by its target.
pub fn on_root_symlink(store_dir: &str, target: &str, idx: &BasenameIndex) -> (r: SymlinkStep)
    ensures
        r == if !lies_in(store_dir@, target@) {
            SymlinkStep::Follow
        } else {
            match node_of_target(store_dir@, target@, idx.map@, idx.store_prefix@) {
                Some(n) => SymlinkStep::Root(n),
                None => SymlinkStep::Nothing,
            }
        },
{
    if !is_in_store(store_dir, target) {
        return SymlinkStep::Follow;
    }
    match root_of_target(store_dir, target, idx) {
        Some(n) => SymlinkStep::Root(n),
        None => SymlinkStep::Nothing,
    }
}

/// Whether a link in the directory `dir` whose target is gone is removed: only
/// links registered automatically are.
pub fn removes_stale_link(dir: &str) -> (r: bool)
    ensures
        r == text::has_text(dir@, "gcroots/auto"@),
{
    text::contains_text(dir, "gcroots/auto")
}

/// The node that a regular file in a directory of roots stands for by its name.
pub fn root_of_file(store_dir: &str, name: &str, idx: &BasenameIndex) -> (r: Option<u32>)
    ensures
        r == node_of_path(idx.map@, idx.store_prefix@, store_dir@.push('/') + name@),
{
    let p = text::join3(store_dir, "/", name);
    proof {
        reveal_strlit("/");
        assert(p@ =~= store_dir@.push('/') + name@);
    }
    idx.idx_of(p.as_str())
}

/// A candidate found below the canonical store directory, as a path below the
/// logical one.
pub fn rebase(candidate: &str, canonical: &str, store_dir: &str) -> (r: Option<String>)
    ensures
        match r {
            Some(p) => text::after_prefix(candidate@, canonical@) is Some && p@ == store_dir@
                + text::after_prefix(candidate@, canonical@)->0,
            None => text::after_prefix(candidate@, canonical@) is None,
        },
{
    match text::strip_prefix(candidate, canonical) {
        Some(rest) => Some(text::join(store_dir, rest.as_str())),
        None => None,
    }
}

/// The nodes that the candidates stand for, in order. Candidates that are no
/// valid paths are dropped.
pub open spec fn nodes_of(
    candidates: Seq<Seq<char>>,
    known: Map<Seq<char>, u32>,
    prefix: Seq<char>,
) -> Seq<u32>
    decreases candidates.len(),
{
    if candidates.len() == 0 {
        Seq::empty()
    } else {
        let rest = nodes_of(candidates.drop_last(), known, prefix);
        match node_of_path(known, prefix, candidates.last()) {
            Some(n) => rest.push(n),
            None => rest,
        }
    }
}

/// Check unchecked candidates against the valid paths.
pub fn check_candidates(candidates: &TextSet, idx: &BasenameIndex) -> (r: Vec<u32>)
    ensures
        r@ == nodes_of(candidates@, idx.map@, idx.store_prefix@),
{
    let items = candidates.items();
    let ghost all = candidates@;
    let mut r: Vec<u32> = Vec::new();
    let mut i: usize = 0;
    assert(all.take(0) =~= Seq::empty());
    while i < items.len()
        invariant
            all == text::views(items@),
            i <= items@.len(),
            r@ == nodes_of(all.take(i as int), idx.map@, idx.store_prefix@),
        decreases items@.len() - i,
    {
        proof {
            assert(all.take(i + 1).drop_last() =~= all.take(i as int));
            assert(all.take(i + 1).last() == items@[i as int]@);
        }
        if let Some(n) = idx.idx_of(items[i].as_str()) {
            r.push(n);
        }
        i += 1;
    }
    assert(all.take(i as int) =~= all);
    r
}

proof fn lemma_known_below(idx: BasenameIndex, paths: Seq<String>, path: Seq<char>)
    requires
        idx.indexes(paths, idx.store_prefix@),
    ensures
        node_of_path(idx.map@, idx.store_prefix@, path) matches Some(n) ==> n < paths.len(),
{
    match text::after_prefix(path, idx.store_prefix@) {
        Some(b) => {
            if idx.map@.contains_key(b) {
                assert(graph::last_named(paths, idx.store_prefix@, b, idx.map@[b] as int));
            }
        },
        None => {},
    }
}

/// Where the target of a symlink in a directory of roots leads.
pub enum Hop {
    /// It was not looked at, since it lies in the store.
    Unseen,
    /// Nowhere.
    Gone,
    /// To something that is not a symlink.
    Plain,
    /// To a symlink with this target.
    Link(String),
}

/// What was found below a directory of roots.
pub enum RootEntry {
    /// A symlink in the directory `dir`.
    Symlink { dir: String, target: String, hop: Hop },
    /// A regular file, which stands for the store path of its name.
    File { name: String },
}

/// The node that an entry is a root for. A symlink is followed one hop further
/// if it does not point into the store itself.
pub open spec fn node_of_entry(
    entry: RootEntry,
    dir: Seq<char>,
    known: Map<Seq<char>, u32>,
    prefix: Seq<char>,
) -> Option<u32> {
    match entry {
        RootEntry::File { name } => node_of_path(known, prefix, dir.push('/') + name@),
        RootEntry::Symlink { target, hop, .. } => if lies_in(dir, target@) {
            node_of_target(dir, target@, known, prefix)
        } else {
            match hop {
                Hop::Link(second) => node_of_target(dir, second@, known, prefix),
                _ => None,
            }
        },
    }
}

/// The nodes that the entries are roots for, in order.
pub open spec fn nodes_of_entries(
    entries: Seq<RootEntry>,
    dir: Seq<char>,
    known: Map<Seq<char>, u32>,
    prefix: Seq<char>,
) -> Seq<u32>
    decreases entries.len(),
{
    if entries.len() == 0 {
        Seq::empty()
    } else {
        let rest = nodes_of_entries(entries.drop_last(), dir, known, prefix);
        match node_of_entry(entries.last(), dir, known, prefix) {
            Some(n) => rest.push(n),
            None => rest,
        }
    }
}

/// An entry to remove: a link that was registered automatically and whose
/// target is gone.
pub open spec fn is_stale(entry: RootEntry, dir: Seq<char>) -> bool {
    match entry {
        RootEntry::Symlink { dir: at, target, hop } => !lies_in(dir, target@) && hop is Gone
            && text::has_text(at@, "gcroots/auto"@),
        RootEntry::File { .. } => false,
    }
}

/// Whether an entry is to be removed.
pub fn is_stale_entry(entry: &RootEntry, store_dir: &str) -> (r: bool)
    ensures
        r == is_stale(*entry, store_dir@),
{
    match entry {
        RootEntry::Symlink { dir, target, hop } => {
            let gone = match hop {
                Hop::Gone => true,
                _ => false,
            };
            gone && !is_in_store(store_dir, target.as_str()) && removes_stale_link(dir.as_str())
        },
        RootEntry::File { name: _ } => false,
    }
}

/// The node that an entry is a root for.
pub fn root_of_entry(entry: &RootEntry, store_dir: &str, idx: &BasenameIndex) -> (r: Option<u32>)
    ensures
        r == node_of_entry(*entry, store_dir@, idx.map@, idx.store_prefix@),
{
    match entry {
        RootEntry::File { name } => root_of_file(store_dir, name.as_str(), idx),
        RootEntry::Symlink { dir: _, target, hop } => {
            match on_root_symlink(store_dir, target.as_str(), idx) {
                SymlinkStep::Root(n) => Some(n),
                SymlinkStep::Nothing => None,
                SymlinkStep::Follow => match hop {
                    Hop::Link(second) => root_of_target(store_dir, second.as_str(), idx),
                    _ => None,
                },
            }
        },
    }
}

/// The roots: those of the entries below the directories of roots, then the
/// candidates found in running processes that are valid paths.
pub fn find_roots(
    entries: &[RootEntry],
    candidates: &TextSet,
    store_dir: &str,
    idx: &BasenameIndex,
) -> (r: Vec<u32>)
    ensures
        r@ == nodes_of_entries(entries@, store_dir@, idx.map@, idx.store_prefix@) + nodes_of(
            candidates@,
            idx.map@,
            idx.store_prefix@,
        ),
        forall|paths: Seq<String>| #[trigger]
            idx.indexes(paths, idx.store_prefix@) ==> graph::nodes_below(r@, paths.len() as int),
{
    let mut r: Vec<u32> = Vec::new();
    let n: usize = entries.len();
    let mut i: usize = 0;
    assert(entries@.take(0) =~= Seq::empty());
    while i < n
        invariant
            n == entries@.len(),
            i <= n,
            r@ == nodes_of_entries(
                entries@.take(i as int),
                store_dir@,
                idx.map@,
                idx.store_prefix@,
            ),
        decreases n - i,
    {
        assert(entries@.take(i + 1).drop_last() =~= entries@.take(i as int));
        if let Some(m) = root_of_entry(&entries[i], store_dir, idx) {
            r.push(m);
        }
        i += 1;
    }
    assert(entries@.take(n as int) =~= entries@);
    let ghost from_entries = r@;
    let mut running = check_candidates(candidates, idx);
    let ghost from_running = running@;
    r.append(&mut running);
    proof {
        assert forall|paths: Seq<String>| #[trigger]
            idx.indexes(paths, idx.store_prefix@) implies graph::nodes_below(
            r@,
            paths.len() as int,
        ) by {
            lemma_entries_below(entries@, store_dir@, *idx, paths);
            lemma_candidates_below(candidates@, *idx, paths);
            assert forall|j: int| 0 <= j < r@.len() implies #[trigger] r@[j] < paths.len() by {
                if j < from_entries.len() {
                    assert(r@[j] == from_entries[j]);
                } else {
                    assert(r@[j] == from_running[j - from_entries.len()]);
                }
            }
        }
    }
    r
}

proof fn lemma_entries_below(
    entries: Seq<RootEntry>,
    dir: Seq<char>,
    idx: BasenameIndex,
    paths: Seq<String>,
)
    requires
        idx.indexes(paths, idx.store_prefix@),
    ensures
        graph::nodes_below(
            nodes_of_entries(entries, dir, idx.map@, idx.store_prefix@),
            paths.len() as int,
        ),
    decreases entries.len(),
{
    if entries.len() > 0 {
        lemma_entries_below(entries.drop_last(), dir, idx, paths);
        match entries.last() {
            RootEntry::File { name } => {
                lemma_known_below(idx, paths, dir.push('/') + name@);
            },
            RootEntry::Symlink { target, hop, .. } => {
                match store_path_of(dir, target@) {
                    Some(p) => lemma_known_below(idx, paths, p),
                    None => {},
                }
                if let Hop::Link(second) = hop {
                    match store_path_of(dir, second@) {
                        Some(p) => lemma_known_below(idx, paths, p),
                        None => {},
                    }
                }
            },
        }
    }
}

proof fn lemma_candidates_below(candidates: Seq<Seq<char>>, idx: BasenameIndex, paths: Seq<String>)
    requires
        idx.indexes(paths, idx.store_prefix@),
    ensures
        graph::nodes_below(
            nodes_of(candidates, idx.map@, idx.store_prefix@),
            paths.len() as int,
        ),
    decreases candidates.len(),
{
    if candidates.len() > 0 {
        lemma_candidates_below(candidates.drop_last(), idx, paths);
        lemma_known_below(idx, paths, candidates.last());
    }
}

/// Every entry that stands for a node makes it a root.
pub proof fn law_entries_are_roots(
    entries: Seq<RootEntry>,
    i: int,
    dir: Seq<char>,
    known: Map<Seq<char>, u32>,
    prefix: Seq<char>,
)
    requires
        0 <= i < entries.len(),
    ensures
        node_of_entry(entries[i], dir, known, prefix) matches Some(n) ==> nodes_of_entries(
            entries,
            dir,
            known,
            prefix,
        ).contains(n),
    decreases entries.len(),
{
    let all = nodes_of_entries(entries, dir, known, prefix);
    if let Some(n) = node_of_entry(entries[i], dir, known, prefix) {
        if i == entries.len() - 1 {
            assert(all[all.len() - 1] == n);
        } else {
            law_entries_are_roots(entries.drop_last(), i, dir, known, prefix);
            let rest = nodes_of_entries(entries.drop_last(), dir, known, prefix);
            let k = choose|k: int| 0 <= k < rest.len() && rest[k] == n;
            assert(all[k] == n);
        }
    }
}

/// The candidates once those found below the canonical store directory have
/// been added as paths below the logical one.
pub open spec fn with_rebased(
    items: Seq<Seq<char>>,
    found: Seq<Seq<char>>,
    canonical: Seq<char>,
    dir: Seq<char>,
) -> Seq<Seq<char>>
    decreases found.len(),
{
    if found.len() == 0 {
        items
    } else {
        let rest = with_rebased(items, found.drop_last(), canonical, dir);
        match text::after_prefix(found.last(), canonical) {
            Some(tail) => text_set::with_item(rest, dir + tail),
            None => rest,
        }
    }
}

/// Add the candidates found below the canonical store directory.
pub fn add_rebased(candidates: &mut TextSet, found: &TextSet, canonical: &str, store_dir: &str)
    requires
        old(candidates).wf(),
    ensures
        final(candidates).wf(),
        final(candidates)@ == with_rebased(old(candidates)@, found@, canonical@, store_dir@),
{
    let items = found.items();
    let ghost all = found@;
    let n: usize = items.len();
    let mut i: usize = 0;
    assert(all.take(0) =~= Seq::empty());
    while i < n
        invariant
            all == text::views(items@),
            n == items@.len(),
            i <= n,
            candidates.wf(),
            candidates@ == with_rebased(
                old(candidates)@,
                all.take(i as int),
                canonical@,
                store_dir@,
            ),
        decreases n - i,
    {
        proof {
            assert(all.take(i + 1).drop_last() =~= all.take(i as int));
            assert(all.take(i + 1).last() == items@[i as int]@);
        }
        if let Some(path) = rebase(items[i].as_str(), canonical, store_dir) {
            candidates.insert(path.as_str());
        }
        i += 1;
    }
    assert(all.take(n as int) =~= all);
}

fn only_digits(name: &str) -> (r: bool)
    ensures
        r == numbers::all_digits(name@),
{
    let x = text::chars_of(name);
    let mut i: usize = 0;
    while i < x.len()
        invariant
            x@ == name@,
            i <= x@.len(),
            forall|j: int| 0 <= j < i ==> '0' <= #[trigger] x@[j] <= '9',
        decreases x@.len() - i,
    {
        if !('0' <= x[i] && x[i] <= '9') {
            assert(!('0' <= name@[i as int] <= '9'));
            return false;
        }
        i += 1;
    }
    true
}

/// True when an entry of the process directory is a process.
pub fn is_pid_name(name: &str) -> (r: bool)
    ensures
        r == (name@.len() > 0 && numbers::all_digits(name@)),
{
    !name.is_empty() && only_digits(name)
}

/// True when an entry of the directory of temp roots is a temp root file.
/// Hidden files and other names are not.
pub fn is_temp_roots_name(name: &str) -> (r: bool)
    ensures
        r == numbers::all_digits(name@),
{
    only_digits(name)
}

/// True when an entry of a process's directory of descriptors is hidden.
pub fn is_hidden(name: &str) -> (r: bool)
    ensures
        r == (name@.len() > 0 && name@[0] == '.'),
{
    let x = text::chars_of(name);
    x.len() > 0 && x[0] == '.'
}

/// The mapped file of a line of a process's memory map: the sixth word, if it
/// is an absolute path.
pub fn mapped_file(line: &str) -> (r: Option<String>)
    ensures
        ({
            let words = text::words(line@);
            match r {
                Some(f) => words.len() > 5 && f@ == words[5] && f@[0] == '/',
                None => words.len() <= 5 || words[5].len() == 0 || words[5][0] != '/',
            }
        }),
{
    let words = text::split_words(line);
    assert(text::views(words@).len() == words@.len());
    if words.len() <= 5 {
        return None;
    }
    let x = text::chars_of(words[5].as_str());
    assert(text::views(words@)[5] == words@[5]@);
    if x.len() > 0 && x[0] == '/' {
        Some(words[5].clone())
    } else {
        None
    }
}

/// A file that holds the path of a helper program names a candidate.
pub fn add_file_root(store_dir: &str, content: &str, unchecked: &mut TextSet)
    requires
        old(unchecked).wf(),
    ensures
        final(unchecked).wf(),
        final(unchecked)@ == with_target(
            old(unchecked)@,
            store_dir@,
            text::trimmed(content@),
        ),
{
    let path = text::trim(content);
    add_unchecked(store_dir, path.as_str(), unchecked);
}

/// What `contents` holds up to each zero byte, and what follows the last one.
pub open spec fn terminated_and_rest(contents: Seq<u8>) -> (Seq<Seq<u8>>, Seq<u8>)
    decreases contents.len(),
{
    if contents.len() == 0 {
        (Seq::empty(), Seq::empty())
    } else {
        let (done, rest) = terminated_and_rest(contents.drop_last());
        if contents.last() == 0 {
            (done.push(rest), Seq::empty())
        } else {
            (done, rest.push(contents.last()))
        }
    }
}

/// The texts among `parts`: parts that are empty or not UTF-8 are dropped.
pub open spec fn texts_of(parts: Seq<Seq<u8>>) -> Seq<Seq<char>>
    decreases parts.len(),
{
    if parts.len() == 0 {
        Seq::empty()
    } else {
        let rest = texts_of(parts.drop_last());
        let part = parts.last();
        if part.len() > 0 && utf8::valid_utf8(part) {
            rest.push(utf8::decode_utf8(part))
        } else {
            rest
        }
    }
}

/// The temp roots in the contents of a temp root file: every zero-terminated
/// text. What follows the last zero is a write still under way.
pub open spec fn temp_roots_in(contents: Seq<u8>) -> Seq<Seq<char>> {
    texts_of(terminated_and_rest(contents).0)
}

/// Read the temp roots out of the contents of a temp root file.
pub fn parse_temp_roots(contents: &[u8]) -> (r: Vec<String>)
    ensures
        text::views(r@) == temp_roots_in(contents@),
{
    let mut r: Vec<String> = Vec::new();
    let mut rest: Vec<u8> = Vec::new();
    let ghost mut done: Seq<Seq<u8>> = Seq::empty();
    let mut i: usize = 0;
    proof {
        assert(contents@.take(0) =~= Seq::empty());
        assert(rest@ =~= Seq::empty());
        assert(text::views(r@) =~= Seq::empty());
    }
    while i < contents.len()
        invariant
            i <= contents@.len(),
            (done, rest@) == terminated_and_rest(contents@.take(i as int)),
            text::views(r@) == texts_of(done),
        decreases contents@.len() - i,
    {
        assert(contents@.take(i + 1).drop_last() =~= contents@.take(i as int));
        if contents[i] == 0 {
            proof {
                done = done.push(rest@);
                assert(done.drop_last() =~= terminated_and_rest(contents@.take(i as int)).0);
            }
            if rest.len() > 0 {
                if let Some(t) = text::decode_text(&rest) {
                    let ghost r0 = r@;
                    let ghost t0 = t@;
                    r.push(t);
                    assert(text::views(r@) =~= text::views(r0).push(t0));
                }
            }
            rest = Vec::new();
            assert(rest@ =~= Seq::empty());
        } else {
            rest.push(contents[i]);
        }
        i += 1;
    }
    assert(contents@.take(i as int) =~= contents@);
    r
}

/// Bytes that end a path in the records of process information.
pub const PATH_TAIL: usize = 1024;

/// `s` up to its first zero byte.
pub open spec fn until_zero(s: Seq<u8>) -> Option<Seq<u8>>
    decreases s.len(),
{
    if s.len() == 0 {
        None
    } else if s[0] == 0 {
        Some(Seq::empty())
    } else {
        match until_zero(s.drop_first()) {
            Some(t) => Some(seq![s[0]] + t),
            None => None,
        }
    }
}

proof fn lemma_until_zero(s: Seq<u8>, k: int)
    requires
        0 <= k <= s.len(),
        forall|i: int| 0 <= i < k ==> #[trigger] s[i] != 0,
        k < s.len() ==> s[k] == 0,
    ensures
        until_zero(s) == if k < s.len() {
            Some(s.take(k))
        } else {
            None
        },
    decreases k,
{
    if k > 0 {
        assert(s[0] != 0);
        assert forall|i: int| 0 <= i < k - 1 implies #[trigger] s.drop_first()[i] != 0 by {
            assert(s.drop_first()[i] == s[i + 1]);
        }
        lemma_until_zero(s.drop_first(), k - 1);
        if k < s.len() {
            assert(s.take(k) =~= seq![s[0]] + s.drop_first().take(k - 1));
        }
    } else if s.len() > 0 {
        assert(s.take(0) =~= Seq::empty());
    }
}

/// The path in a record of process information: the zero-terminated text at the
/// beginning of its last 1024 bytes, unless that is empty or not UTF-8.
pub open spec fn path_in_record(buf: Seq<u8>) -> Option<Seq<char>> {
    if buf.len() < 1024 {
        None
    } else {
        match until_zero(buf.skip(buf.len() - 1024)) {
            Some(bytes) => if bytes.len() > 0 {
                text::decoded(bytes)
            } else {
                None
            },
            None => None,
        }
    }
}

/// The path in a record of process information.
pub fn extract_cstr_path(buf: &[u8]) -> (r: Option<String>)
    ensures
        match r {
            Some(p) => path_in_record(buf@) == Some(p@),
            None => path_in_record(buf@) is None,
        },
{
    if buf.len() < PATH_TAIL {
        return None;
    }
    let n: usize = buf.len();
    let start: usize = n - PATH_TAIL;
    let ghost tail = buf@.skip(start as int);
    let mut end: usize = start;
    while end < n && buf[end] != 0
        invariant
            n == buf@.len(),
            tail == buf@.skip(start as int),
            start <= end <= n,
            forall|i: int| 0 <= i < end - start ==> #[trigger] tail[i] != 0,
        decreases n - end,
    {
        assert(tail[end - start] == buf@[end as int]);
        end += 1;
    }
    proof {
        lemma_until_zero(tail, end - start);
        assert(tail.take(end - start) =~= buf@.subrange(start as int, end as int));
    }
    if end == n || end == start {
        return None;
    }
    text::decode_text(vstd::slice::slice_subrange(buf, start, end))
}

/// Where to look for the next memory region: behind the last one, by at least a
/// page. `None` when that leads nowhere.
pub fn next_region(addr: u64, region_address: u64, region_size: u64) -> (r: Option<u64>)
    ensures
        ({
            let size = if region_size < 4096 {
                4096int
            } else {
                region_size as int
            };
            let next = if region_address + size > u64::MAX {
                u64::MAX as int
            } else {
                region_address + size
            };
            r == if next <= addr {
                None
            } else {
                Some(next as u64)
            }
        }),
        r matches Some(next) ==> next > addr && (next == u64::MAX || next >= region_address
            + region_size && next >= region_address + 4096),
        r is None ==> region_address + region_size <= addr || addr == u64::MAX,
{
    let size: u64 = if region_size < 4096 {
        4096
    } else {
        region_size
    };
    let next: u64 = region_address.saturating_add(size);
    if next <= addr {
        None
    } else {
        Some(next)
    }
}

/// A character of a name is a digit, a letter, or one of `+-._?=`.
proof fn lemma_name_char(c: char)
    ensures
        is_path_char(c) <==> '0' <= c <= '9' || 'a' <= c <= 'z' || 'A' <= c <= 'Z' || seq![
            '+',
            '-',
            '.',
            '_',
            '?',
            '=',
        ].contains(c),
        is_path_char(c) ==> c != '/',
{
    let others = seq!['+', '-', '.', '_', '?', '='];
    assert(others[0] == '+' && others[1] == '-' && others[2] == '.');
    assert(others[3] == '_' && others[4] == '?' && others[5] == '=');
}

/// A hash of 32 digits and lower-case letters, a dash, and a name of any
/// length, made of digits, letters and `+-._?=`, is a store path in every
/// directory, and so is whatever lies below it.
pub proof fn law_store_paths_are_recognised(
    dir: Seq<char>,
    hash: Seq<char>,
    name: Seq<char>,
    rest: Seq<char>,
)
    requires
        hash.len() == 32,
        forall|i: int|
            0 <= i < 32 ==> '0' <= #[trigger] hash[i] <= '9' || 'a' <= hash[i] <= 'z',
        name.len() > 0,
        forall|i: int|
            0 <= i < name.len() ==> '0' <= #[trigger] name[i] <= '9' || 'a' <= name[i] <= 'z'
                || 'A' <= name[i] <= 'Z' || seq!['+', '-', '.', '_', '?', '='].contains(name[i]),
        rest.len() == 0 || rest[0] == '/',
    ensures
        is_basename(hash + seq!['-'] + name),
        store_path_of(dir, dir + seq!['/'] + hash + seq!['-'] + name) == Some(
            dir + seq!['/'] + hash + seq!['-'] + name,
        ),
        store_path_of(dir, dir + seq!['/'] + hash + seq!['-'] + name + rest) == Some(
            dir + seq!['/'] + hash + seq!['-'] + name,
        ),
{
    let base = hash + seq!['-'] + name;
    assert forall|i: int| 33 <= i < base.len() implies is_path_char(#[trigger] base[i]) by {
        assert(base[i] == name[i - 33]);
        lemma_name_char(name[i - 33]);
    }
    assert forall|i: int| 0 <= i < 32 implies is_hash_char(#[trigger] base[i]) by {
        assert(base[i] == hash[i]);
    }
    assert(is_basename(base));
    let whole = dir + seq!['/'] + hash + seq!['-'] + name;
    assert(dir.push('/') + base =~= whole);
    law_deeper_paths_belong(dir, base, rest);
    law_deeper_paths_belong(dir, base, Seq::empty());
    assert(whole + Seq::<char>::empty() =~= whole);
}

/// Nothing else is a store path: what is recognised is the directory, a slash,
/// a hash of 32 digits and lower-case letters, a dash and a name that is not
/// empty, and it is the path itself or one that the path lies below.
pub proof fn law_only_store_paths_are_recognised(dir: Seq<char>, path: Seq<char>, found: Seq<char>)
    requires
        store_path_of(dir, path) == Some(found),
    ensures
        found.len() >= dir.len() + 35,
        found.take(dir.len() as int) == dir,
        found[dir.len() as int] == '/',
        forall|i: int|
            dir.len() < i < dir.len() + 33 ==> '0' <= #[trigger] found[i] <= '9' || 'a' <= found[i]
                <= 'z',
        found[dir.len() as int + 33] == '-',
        forall|i: int|
            dir.len() + 33 < i < found.len() ==> '0' <= #[trigger] found[i] <= '9' || 'a'
                <= found[i] <= 'z' || 'A' <= found[i] <= 'Z' || seq![
                '+',
                '-',
                '.',
                '_',
                '?',
                '=',
            ].contains(found[i]),
        found.len() <= path.len(),
        path.take(found.len() as int) == found,
        found.len() == path.len() || path[found.len() as int] == '/',
{
    let n = dir.len() as int;
    let name = first_part(path, n + 1);
    lemma_part_ends(path, n + 1);
    assert(found =~= dir.push('/') + name);
    assert(found.take(n) =~= dir);
    assert forall|i: int| n < i < n + 33 implies '0' <= #[trigger] found[i] <= '9' || 'a'
        <= found[i] <= 'z' by {
        assert(found[i] == name[i - n - 1]);
        assert(is_hash_char(name[i - n - 1]));
    }
    assert(found[n + 33] == name[32]);
    assert forall|i: int| n + 33 < i < found.len() implies '0' <= #[trigger] found[i] <= '9' || 'a'
        <= found[i] <= 'z' || 'A' <= found[i] <= 'Z' || seq![
        '+',
        '-',
        '.',
        '_',
        '?',
        '=',
    ].contains(found[i]) by {
        assert(found[i] == name[i - n - 1]);
        lemma_name_char(name[i - n - 1]);
    }
    assert forall|i: int| 0 <= i < found.len() implies path[i] == found[i] by {
        if i < n {
            assert(path.take(n)[i] == dir[i]);
        } else if i > n {
            assert(path.subrange(n + 1, n + 1 + name.len())[i - n - 1] == name[i - n - 1]);
        }
    }
    assert(path.take(found.len() as int) =~= found);
}

proof fn lemma_part_ends(s: Seq<char>, from: int)
    requires
        0 <= from <= s.len(),
    ensures
        ({
            let part = first_part(s, from);
            &&& from + part.len() <= s.len()
            &&& s.subrange(from, from + part.len()) == part
            &&& from + part.len() == s.len() || s[from + part.len()] == '/'
        }),
    decreases s.len() - from,
{
    if from < s.len() && s[from] != '/' {
        lemma_part_ends(s, from + 1);
        let part = first_part(s, from);
        let rest = first_part(s, from + 1);
        assert forall|i: int| 0 <= i < part.len() implies s.subrange(from, from + part.len())[i]
            == part[i] by {
            if i > 0 {
                assert(s.subrange(from + 1, from + 1 + rest.len())[i - 1] == rest[i - 1]);
            }
        }
        assert(s.subrange(from, from + part.len()) =~= part);
    } else {
        assert(s.subrange(from, from) =~= Seq::empty());
    }
}

/// A path lies in a directory exactly if it is the directory, a slash, and
/// anything behind it.
pub proof fn law_paths_behind_a_slash_lie_in(dir: Seq<char>, rest: Seq<char>, path: Seq<char>)
    ensures
        lies_in(dir, dir + seq!['/'] + rest),
        lies_in(dir, path) ==> exists|tail: Seq<char>| path == #[trigger] (dir + seq!['/'] + tail),
{
    assert((dir + seq!['/'] + rest).take(dir.len() as int) =~= dir);
    if lies_in(dir, path) {
        let tail = path.skip(dir.len() as int + 1);
        let whole = dir + seq!['/'] + tail;
        assert forall|i: int| 0 <= i < path.len() implies path[i] == whole[i] by {
            if i < dir.len() {
                assert(path.take(dir.len() as int)[i] == dir[i]);
            }
        }
        assert(path =~= whole);
    }
}

/// A store path in a blob is found by its shape, whatever stands before it, as
/// long as no other mention of the store directory overlaps its own, and
/// whatever stands behind it, as long as that is no character of a name.
pub proof fn law_scan_finds_store_paths(
    items: Seq<Seq<char>>,
    before: Seq<char>,
    dir: Seq<char>,
    hash: Seq<char>,
    name: Seq<char>,
    after: Seq<char>,
)
    requires
        dir.len() > 0,
        dir[0] == '/',
        hash.len() == 32,
        forall|i: int|
            0 <= i < 32 ==> '0' <= #[trigger] hash[i] <= '9' || 'a' <= hash[i] <= 'z',
        name.len() > 0,
        forall|i: int|
            0 <= i < name.len() ==> '0' <= #[trigger] name[i] <= '9' || 'a' <= name[i] <= 'z'
                || 'A' <= name[i] <= 'Z' || seq!['+', '-', '.', '_', '?', '='].contains(name[i]),
        after.len() > 0 ==> !('0' <= after[0] <= '9' || 'a' <= after[0] <= 'z' || 'A' <= after[0]
            <= 'Z' || seq!['+', '-', '.', '_', '?', '='].contains(after[0])),
        forall|q: int|
            before.len() - dir.len() <= q < before.len() ==> !(#[trigger] text::occurs_at(
                before + (dir + seq!['/'] + hash + seq!['-'] + name) + after,
                dir + seq!['/'],
                q,
            )),
    ensures
        scanned(items, before + (dir + seq!['/'] + hash + seq!['-'] + name) + after, dir, 0).contains(
            dir + seq!['/'] + hash + seq!['-'] + name,
        ),
{
    let whole = dir + seq!['/'] + hash + seq!['-'] + name;
    let blob = before + whole + after;
    let at = before.len() as int;
    let from = at + dir.len() + 1;
    let base = hash + seq!['-'] + name;
    assert(dir.push('/') =~= dir + seq!['/']);
    assert(blob.subrange(at, at + dir.len() + 1) =~= dir.push('/'));
    law_store_paths_are_recognised(dir, hash, name, Seq::empty());
    assert forall|i: int| 0 <= i < base.len() implies #[trigger] blob[from + i] == base[i] by {
        assert(whole[dir.len() + 1 + i] == base[i]);
        assert(blob[at + (dir.len() + 1 + i)] == whole[dir.len() + 1 + i]);
    }
    let end = from + base.len();
    assert(end == at + whole.len());
    assert forall|i: int| from <= i < end implies is_path_char(#[trigger] blob[i]) by {
        assert(blob[from + (i - from)] == base[i - from]);
        if i - from < 32 {
            assert(is_hash_char(base[i - from]));
        }
    }
    if after.len() > 0 {
        assert(blob[end] == after[0]);
        lemma_name_char(after[0]);
    }
    lemma_run_ends_at(blob, from, end);
    assert(blob.subrange(from, end) =~= base);
    law_scan_finds_embedded_paths(items, blob, dir, at);
    assert(dir.push('/') + base =~= whole);
}

proof fn lemma_run_ends_at(blob: Seq<char>, from: int, end: int)
    requires
        0 <= from <= end <= blob.len(),
        forall|i: int| from <= i < end ==> is_path_char(#[trigger] blob[i]),
        end < blob.len() ==> !is_path_char(blob[end]),
    ensures
        run_end(blob, from) == end,
    decreases end - from,
{
    if from < end {
        assert(is_path_char(blob[from]));
        lemma_run_ends_at(blob, from + 1, end);
    }
}

/// A scan finds nothing but store paths that the blob holds, letter for letter.
pub proof fn law_scan_finds_nothing_else(
    items: Seq<Seq<char>>,
    blob: Seq<char>,
    dir: Seq<char>,
    from: int,
    found: Seq<char>,
)
    requires
        scanned(items, blob, dir, from).contains(found),
        !items.contains(found),
    ensures
        store_path_of(dir, found) == Some(found),
        exists|at: int|
            from <= at <= at + found.len() <= blob.len() && #[trigger] blob.subrange(
                at,
                at + found.len(),
            ) == found,
    decreases blob.len() - from,
{
    let prefix = dir.push('/');
    if 0 <= from && exists|at: int| text::is_first_at(blob, prefix, from, at) {
        let at = choose|at: int| text::is_first_at(blob, prefix, from, at);
        let after = at + prefix.len();
        let end = run_end(blob, after);
        if end >= after && end <= blob.len() {
            let target = blob.subrange(at, end);
            let now = if end > after {
                with_target(items, dir, target)
            } else {
                items
            };
            if now.contains(found) {
                let p = store_path_of(dir, target)->0;
                text_set::lemma_with_item(items, p, found);
                assert(p == found);
                law_only_store_paths_are_recognised(dir, target, found);
                assert(blob.subrange(at, at + found.len()) =~= target.take(found.len() as int));
                let name = first_part(target, dir.len() as int + 1);
                assert(found + Seq::<char>::empty() =~= found);
                law_deeper_paths_belong(dir, name, Seq::empty());
            } else {
                law_scan_finds_nothing_else(now, blob, dir, end, found);
                let b = choose|b: int|
                    end <= b <= b + found.len() <= blob.len() && #[trigger] blob.subrange(
                        b,
                        b + found.len(),
                    ) == found;
                assert(blob.subrange(b, b + found.len()) == found);
            }
        }
    }
}

/// What lies in a store path adds that path to the candidates, however many
/// there are, and nothing else changes.
pub proof fn law_targets_become_candidates(
    items: Seq<Seq<char>>,
    dir: Seq<char>,
    target: Seq<char>,
    s: Seq<char>,
)
    ensures
        with_target(items, dir, target).contains(s) <==> items.contains(s) || store_path_of(
            dir,
            target,
        ) == Some(s),
{
    if let Some(p) = store_path_of(dir, target) {
        text_set::lemma_with_item(items, p, s);
    }
}

/// A link to a store path, or to anything below it, is a root for the node of
/// that path, directly or by way of one more link from outside the store.
pub proof fn law_links_keep_their_targets(
    link_dir: String,
    target: String,
    dir: Seq<char>,
    hash: Seq<char>,
    name: Seq<char>,
    rest: Seq<char>,
    known: Map<Seq<char>, u32>,
    first: String,
)
    requires
        hash.len() == 32,
        forall|i: int|
            0 <= i < 32 ==> '0' <= #[trigger] hash[i] <= '9' || 'a' <= hash[i] <= 'z',
        name.len() > 0,
        forall|i: int|
            0 <= i < name.len() ==> '0' <= #[trigger] name[i] <= '9' || 'a' <= name[i] <= 'z'
                || 'A' <= name[i] <= 'Z' || seq!['+', '-', '.', '_', '?', '='].contains(name[i]),
        rest.len() == 0 || rest[0] == '/',
        target@ == dir + seq!['/'] + hash + seq!['-'] + name + rest,
        forall|tail: Seq<char>| first@ != #[trigger] (dir + seq!['/'] + tail),
    ensures
        ({
            let node = if known.contains_key(hash + seq!['-'] + name) {
                Some(known[hash + seq!['-'] + name])
            } else {
                None
            };
            let direct = RootEntry::Symlink { dir: link_dir, target, hop: Hop::Unseen };
            let indirect = RootEntry::Symlink {
                dir: link_dir,
                target: first,
                hop: Hop::Link(target),
            };
            &&& node_of_entry(direct, dir, known, dir + seq!['/']) == node
            &&& node_of_entry(indirect, dir, known, dir + seq!['/']) == node
        }),
{
    let base = hash + seq!['-'] + name;
    let prefix = dir + seq!['/'];
    let whole = dir + seq!['/'] + hash + seq!['-'] + name;
    law_store_paths_are_recognised(dir, hash, name, rest);
    assert(whole =~= prefix + base);
    graph::lemma_prefix_joins(whole, prefix, base);
    let tail = base + rest;
    assert(target@ =~= dir + seq!['/'] + tail);
    law_paths_behind_a_slash_lie_in(dir, tail, first@);
}

/// A file is a root for the node of its name.
pub proof fn law_files_keep_their_names(file: String, dir: Seq<char>, known: Map<Seq<char>, u32>)
    ensures
        node_of_entry(RootEntry::File { name: file }, dir, known, dir + seq!['/']) == if known.contains_key(
            file@,
        ) {
            Some(known[file@])
        } else {
            None
        },
{
    let prefix = dir + seq!['/'];
    assert(dir.push('/') =~= prefix);
    graph::lemma_prefix_joins(prefix + file@, prefix, file@);
}

/// Only entries make roots: every root found below the directories of roots is
/// the node of one of them.
pub proof fn law_roots_come_from_entries(
    entries: Seq<RootEntry>,
    dir: Seq<char>,
    known: Map<Seq<char>, u32>,
    prefix: Seq<char>,
    n: u32,
)
    requires
        nodes_of_entries(entries, dir, known, prefix).contains(n),
    ensures
        exists|i: int|
            0 <= i < entries.len() && node_of_entry(#[trigger] entries[i], dir, known, prefix)
                == Some(n),
    decreases entries.len(),
{
    let all = nodes_of_entries(entries, dir, known, prefix);
    let k = choose|k: int| 0 <= k < all.len() && all[k] == n;
    let init = entries.drop_last();
    let rest = nodes_of_entries(init, dir, known, prefix);
    if k < rest.len() {
        assert(rest[k] == n);
        law_roots_come_from_entries(init, dir, known, prefix, n);
        let i = choose|i: int|
            0 <= i < init.len() && node_of_entry(#[trigger] init[i], dir, known, prefix) == Some(n);
        assert(entries[i] == init[i]);
    } else {
        assert(entries[entries.len() - 1] == entries.last());
    }
}

/// A candidate is a root exactly for the node of the base name behind the
/// prefix.
pub proof fn law_candidates_are_roots(
    candidates: Seq<Seq<char>>,
    known: Map<Seq<char>, u32>,
    prefix: Seq<char>,
    n: u32,
)
    ensures
        nodes_of(candidates, known, prefix).contains(n) <==> exists|base: Seq<char>|
            candidates.contains(prefix + base) && #[trigger] known.contains_key(base)
                && known[base] == n,
    decreases candidates.len(),
{
    let all = nodes_of(candidates, known, prefix);
    if candidates.len() > 0 {
        let init = candidates.drop_last();
        let last = candidates.last();
        let rest = nodes_of(init, known, prefix);
        law_candidates_are_roots(init, known, prefix, n);
        if all.contains(n) {
            let k = choose|k: int| 0 <= k < all.len() && all[k] == n;
            if k < rest.len() {
                assert(rest[k] == n);
                let base = choose|base: Seq<char>|
                    init.contains(prefix + base) && #[trigger] known.contains_key(base)
                        && known[base] == n;
                let j = choose|j: int| 0 <= j < init.len() && init[j] == prefix + base;
                assert(candidates[j] == prefix + base);
            } else {
                let base = text::after_prefix(last, prefix)->0;
                graph::lemma_prefix_joins(last, prefix, base);
                assert(candidates[candidates.len() - 1] == prefix + base);
                assert(known.contains_key(base));
            }
        }
        if exists|base: Seq<char>|
            candidates.contains(prefix + base) && #[trigger] known.contains_key(base)
                && known[base] == n {
            let base = choose|base: Seq<char>|
                candidates.contains(prefix + base) && #[trigger] known.contains_key(base)
                    && known[base] == n;
            let j = choose|j: int| 0 <= j < candidates.len() && candidates[j] == prefix + base;
            if j < init.len() {
                assert(init[j] == prefix + base);
                let k = choose|k: int| 0 <= k < rest.len() && rest[k] == n;
                assert(all[k] == n);
            } else {
                graph::lemma_prefix_joins(last, prefix, base);
                assert(all[all.len() - 1] == n);
            }
        }
    }
}

/// A link is removed exactly if it was registered automatically, points out of
/// the store, and its target is gone. What is a root is never removed.
pub proof fn law_only_dead_links_are_removed(
    entry: RootEntry,
    dir: Seq<char>,
    known: Map<Seq<char>, u32>,
    prefix: Seq<char>,
    before: Seq<char>,
    after: Seq<char>,
)
    ensures
        node_of_entry(entry, dir, known, prefix) is Some ==> !is_stale(entry, dir),
        entry is File ==> !is_stale(entry, dir),
        entry matches RootEntry::Symlink { dir: at, target, hop } ==> {
            &&& (exists|tail: Seq<char>| target@ == #[trigger] (dir + seq!['/'] + tail))
                ==> !is_stale(entry, dir)
            &&& !(hop is Gone) ==> !is_stale(entry, dir)
            &&& hop is Gone && at@ == before + "gcroots/auto"@ + after && (forall|tail: Seq<char>|
                target@ != #[trigger] (dir + seq!['/'] + tail)) ==> is_stale(entry, dir)
        },
{
    if let RootEntry::Symlink { dir: at, target, hop } = entry {
        law_paths_behind_a_slash_lie_in(dir, Seq::empty(), target@);
        if exists|tail: Seq<char>| target@ == #[trigger] (dir + seq!['/'] + tail) {
            let tail = choose|tail: Seq<char>| target@ == #[trigger] (dir + seq!['/'] + tail);
            law_paths_behind_a_slash_lie_in(dir, tail, target@);
        }
        let needle = "gcroots/auto"@;
        if at@ == before + needle + after {
            assert(at@.subrange(before.len() as int, before.len() as int + needle.len()) =~= needle);
            assert(text::occurs_at(at@, needle, before.len() as int));
        }
    }
}

/// A candidate below the canonical store directory counts as the same path
/// below the logical one, and nothing else is added.
pub proof fn law_rebased_candidates_are_added(
    items: Seq<Seq<char>>,
    found: Seq<Seq<char>>,
    canonical: Seq<char>,
    dir: Seq<char>,
    s: Seq<char>,
)
    ensures
        with_rebased(items, found, canonical, dir).contains(s) <==> items.contains(s) || exists|
            tail: Seq<char>,
        |
            found.contains(#[trigger] (canonical + tail)) && s == dir + tail,
    decreases found.len(),
{
    if found.len() > 0 {
        let init = found.drop_last();
        let last = found.last();
        let rest = with_rebased(items, init, canonical, dir);
        law_rebased_candidates_are_added(items, init, canonical, dir, s);
        assert forall|t: Seq<char>| #[trigger]
            found.contains(t) <==> init.contains(t) || t == last by {
            if found.contains(t) {
                let j = choose|j: int| 0 <= j < found.len() && found[j] == t;
                if j < init.len() {
                    assert(init[j] == t);
                }
            }
            if init.contains(t) {
                let j = choose|j: int| 0 <= j < init.len() && init[j] == t;
                assert(found[j] == t);
            }
            assert(found[found.len() - 1] == last);
        }
        match text::after_prefix(last, canonical) {
            Some(tail) => {
                graph::lemma_prefix_joins(last, canonical, tail);
                text_set::lemma_with_item(rest, dir + tail, s);
                if s == dir + tail {
                    assert(found.contains(canonical + tail));
                }
            },
            None => {},
        }
        if exists|tail: Seq<char>|
            init.contains(#[trigger] (canonical + tail)) && s == dir + tail {
            let tail = choose|tail: Seq<char>|
                init.contains(#[trigger] (canonical + tail)) && s == dir + tail;
            assert(found.contains(canonical + tail));
        }
        if exists|tail: Seq<char>|
            found.contains(#[trigger] (canonical + tail)) && s == dir + tail {
            let tail = choose|tail: Seq<char>|
                found.contains(#[trigger] (canonical + tail)) && s == dir + tail;
            if init.contains(canonical + tail) {
            } else {
                assert(canonical + tail == last);
                graph::lemma_prefix_joins(last, canonical, tail);
                text_set::lemma_with_item(rest, dir + tail, s);
            }
        }
    }
}

/// The path in a record is found wherever the record's last 1024 bytes begin
/// with it and a zero byte, whatever stands before and behind.
pub proof fn law_records_hold_paths(head: Seq<u8>, path: Seq<char>, tail: Seq<u8>)
    requires
        path.len() > 0,
        forall|i: int|
            0 <= i < utf8::encode_utf8(path).len() ==> #[trigger] utf8::encode_utf8(path)[i] != 0,
        utf8::encode_utf8(path).len() + 1 + tail.len() == 1024,
    ensures
        path_in_record(head + (utf8::encode_utf8(path) + seq![0u8] + tail)) == Some(path),
{
    let bytes = utf8::encode_utf8(path);
    let end = bytes + seq![0u8] + tail;
    let buf = head + end;
    assert(buf.skip(buf.len() - 1024) =~= end);
    assert forall|i: int| 0 <= i < bytes.len() implies #[trigger] end[i] != 0 by {
        assert(end[i] == bytes[i]);
    }
    assert(end[bytes.len() as int] == 0);
    lemma_until_zero(end, bytes.len() as int);
    assert(end.take(bytes.len() as int) =~= bytes);
    utf8::encode_utf8_valid_utf8(path);
    utf8::encode_utf8_decode_utf8(path);
    assert(bytes.len() > 0) by {
        utf8::encode_utf8_first_scalar(path);
        assert(utf8::encode_scalar(path[0] as u32).len() > 0);
    }
}

/// A record that is too short, or whose path is empty or not terminated, holds
/// none.
pub proof fn law_other_records_hold_none(buf: Seq<u8>)
    ensures
        buf.len() < 1024 ==> path_in_record(buf) is None,
        buf.len() >= 1024 && buf[buf.len() - 1024] == 0 ==> path_in_record(buf) is None,
        buf.len() >= 1024 && (forall|i: int|
            buf.len() - 1024 <= i < buf.len() ==> #[trigger] buf[i] != 0) ==> path_in_record(
            buf,
        ) is None,
{
    if buf.len() >= 1024 {
        let end = buf.skip(buf.len() - 1024);
        if forall|i: int| buf.len() - 1024 <= i < buf.len() ==> #[trigger] buf[i] != 0 {
            assert forall|i: int| 0 <= i < 1024 implies #[trigger] end[i] != 0 by {
                assert(buf[buf.len() - 1024 + i] != 0);
            }
            lemma_until_zero(end, 1024);
        } else if buf[buf.len() - 1024] == 0 {
            assert(end[0] == 0);
            lemma_until_zero(end, 0);
            assert(end.take(0).len() == 0);
        }
    }
}

} // verus!
