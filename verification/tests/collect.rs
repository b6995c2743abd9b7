use fast_nix_gc::collector::{
    bytes_of_tree, first_step, next_chunk_step, next_step, plan_collection, plan_unlink,
    socket_failure_is_fatal, summary, ChunkStep, DeletionRun, GcStep, UnlinkPlan, UnlinkStat,
};
use fast_nix_gc::db::{edge_query, invalidate_sql, next_invalidate_step, InvalidateStep, NixDb};
use fast_nix_gc::db::{PathRow, MAX_ID_QUERY, ROWS_QUERY};
use fast_nix_gc::deletion::dead_indices;
use fast_nix_gc::gc::{
    disk_name, dry_run_report, link_action, needs_lock, replay_early_roots, still_unknown,
    GcOptions, LinkAction,
};
use fast_nix_gc::graph::{BasenameIndex, StoreGraph};
use fast_nix_gc::live_set::LiveSet;
use fast_nix_gc::roots::{
    add_unchecked, find_roots, is_temp_roots_name, parse_temp_roots, scan_blob_for_store_paths,
    Hop, RootEntry,
};
use fast_nix_gc::temp_roots::root_record;
use fast_nix_gc::text_set::TextSet;
use rusqlite::Connection;
use std::collections::BTreeMap;

/// A store with its database and state, all in memory.
struct TestStore {
    conn: Connection,
    /// Blocks of the entries of the store directory; directories are not files.
    disk: BTreeMap<String, u64>,
    locked: Vec<String>,
    entries: Vec<RootEntry>,
    open_files: Vec<String>,
    environ: String,
    /// Temp root files: name, whether the owner lives, contents.
    temp_roots: Vec<(String, bool, Vec<u8>)>,
}

#[derive(Clone)]
struct Pkg {
    id: i64,
    base: String,
    full: String,
}

const STORE_DIR: &str = "/tmp/test/store";

/// A hash derived from the name: stable and unique per name.
fn fake_hash(name: &str) -> String {
    let mut h: u64 = 0xcbf29ce484222325;
    for b in name.bytes() {
        h ^= b as u64;
        h = h.wrapping_mul(0x100000001b3);
    }
    let mut s = String::with_capacity(32);
    let mut x = h;
    for _ in 0..32 {
        s.push(b"0123456789abcdfghijklmnpqrsvwxyz"[(x & 0x1f) as usize] as char);
        x = x.rotate_left(5) ^ h;
    }
    s
}

impl TestStore {
    fn new() -> Self {
        let conn = Connection::open_in_memory().unwrap();
        conn.execute_batch(
            "CREATE TABLE ValidPaths (
                 id integer primary key autoincrement not null,
                 path text unique not null,
                 hash text not null,
                 registrationTime integer not null,
                 deriver text,
                 narSize integer
             );
             CREATE TABLE Refs (
                 referrer integer not null,
                 reference integer not null,
                 primary key (referrer, reference),
                 foreign key (referrer) references ValidPaths(id) on delete cascade,
                 foreign key (reference) references ValidPaths(id) on delete restrict
             );
             CREATE TABLE DerivationOutputs (
                 drv integer not null,
                 id text not null,
                 path text not null,
                 primary key (drv, id),
                 foreign key (drv) references ValidPaths(id) on delete cascade
             );",
        )
        .unwrap();
        conn.pragma_update(None, "foreign_keys", "ON").unwrap();
        let mut disk = BTreeMap::new();
        disk.insert(".links".to_owned(), 8);
        TestStore {
            conn,
            disk,
            locked: Vec::new(),
            entries: Vec::new(),
            open_files: Vec::new(),
            environ: String::new(),
            temp_roots: Vec::new(),
        }
    }

    fn add_path(&mut self, name: &str, nar_size: u64) -> Pkg {
        let hash = fake_hash(name);
        let base = format!("{hash}-{name}");
        let full = format!("{STORE_DIR}/{base}");
        self.disk.insert(base.clone(), 16);
        self.conn
            .execute(
                "INSERT INTO ValidPaths (path, hash, registrationTime, narSize) VALUES (?, ?, 1000, ?)",
                (&full, format!("sha256:{hash}"), nar_size as i64),
            )
            .unwrap();
        Pkg {
            id: self.conn.last_insert_rowid(),
            base,
            full,
        }
    }

    fn add_ref(&self, referrer: &Pkg, reference: &Pkg) {
        self.conn
            .execute(
                "INSERT OR IGNORE INTO Refs (referrer, reference) VALUES (?, ?)",
                (referrer.id, reference.id),
            )
            .unwrap();
    }

    fn set_deriver(&self, out: &Pkg, drv: &Pkg) {
        self.conn
            .execute(
                "UPDATE ValidPaths SET deriver = ? WHERE path = ?",
                (&drv.full, &out.full),
            )
            .unwrap();
    }

    fn add_root(&mut self, target: &str) {
        self.entries.push(RootEntry::Symlink {
            dir: "/tmp/test/state/gcroots".to_owned(),
            target: target.to_owned(),
            hop: Hop::Unseen,
        });
    }

    fn in_db(&self, full: &str) -> bool {
        let n: i64 = self
            .conn
            .query_row(
                "SELECT COUNT(*) FROM ValidPaths WHERE path = ?",
                [full],
                |r| r.get(0),
            )
            .unwrap();
        n > 0
    }

    fn on_disk(&self, p: &Pkg) -> bool {
        self.disk.contains_key(&p.base)
    }

    fn load_graph(&self, db: &NixDb) -> StoreGraph {
        let max_id: i64 = self.conn.query_row(MAX_ID_QUERY, [], |r| r.get(0)).unwrap();
        let mut stmt = self.conn.prepare(ROWS_QUERY).unwrap();
        let rows: Vec<PathRow> = stmt
            .query_map([], |r| {
                Ok(PathRow {
                    id: r.get(0)?,
                    path: r.get(1)?,
                    nar_size: r.get(2)?,
                    registration_time: r.get(3)?,
                })
            })
            .unwrap()
            .map(|r| r.unwrap())
            .collect();
        let prefix = db.store_prefix();
        let mut edges: Vec<(i64, i64)> = Vec::new();
        for source in db.edge_sources(false) {
            let mut stmt = self.conn.prepare(&edge_query(source, &prefix)).unwrap();
            for edge in stmt.query_map([], |r| Ok((r.get(0)?, r.get(1)?))).unwrap() {
                edges.push(edge.unwrap());
            }
        }
        db.load_graph(max_id, rows, &edges)
    }

    fn invalidate(&self, paths: &[String]) {
        let mut step = InvalidateStep::Begin;
        while step != InvalidateStep::Finish {
            let sql = invalidate_sql(step);
            let ok = match step {
                InvalidateStep::CollectDead => {
                    let mut ins = self.conn.prepare(sql).unwrap();
                    paths.iter().all(|p| ins.execute([p]).is_ok())
                }
                InvalidateStep::Fail => panic!("removal failed"),
                _ => self.conn.execute_batch(sql).is_ok(),
            };
            step = next_invalidate_step(step, ok, false);
        }
    }

    fn live_temp_roots(&mut self) -> Vec<String> {
        self.temp_roots
            .retain(|(name, alive, _)| *alive || !is_temp_roots_name(name));
        let mut roots = Vec::new();
        for (name, _, contents) in &self.temp_roots {
            if is_temp_roots_name(name) {
                roots.extend(parse_temp_roots(contents));
            }
        }
        roots
    }

    /// Valid paths must never reference a path without a row.
    fn check_refs(&self) {
        let dangling: i64 = self
            .conn
            .query_row(
                "SELECT COUNT(*) FROM Refs WHERE reference NOT IN (SELECT id FROM ValidPaths)",
                [],
                |r| r.get(0),
            )
            .unwrap();
        assert_eq!(dangling, 0);
    }

    fn run_gc(&mut self, opts: &GcOptions) -> String {
        let mut db = NixDb::new(STORE_DIR.as_bytes(), b"/tmp/test/state", true, false);
        db.keep_derivations = true;
        let mut step = first_step(opts);
        let (mut freed, mut deleted) = (0u64, 0u64);
        let mut graph = StoreGraph::empty(db.store_prefix());
        let mut live = LiveSet::new(0);
        let mut plan = None;
        loop {
            match step {
                GcStep::FreeReserve
                | GcStep::TakeLock
                | GcStep::MakeWritable
                | GcStep::ServeEarly
                | GcStep::CleanLinks
                | GcStep::Vacuum => {}
                GcStep::LoadGraph => graph = self.load_graph(&db),
                GcStep::ServeGraph => live = LiveSet::new(graph.len()),
                GcStep::FindRoots => {
                    let idx = BasenameIndex::new(&graph);
                    let mut running = TextSet::new();
                    for f in &self.open_files {
                        add_unchecked(STORE_DIR, f, &mut running);
                    }
                    scan_blob_for_store_paths(&self.environ, STORE_DIR, &mut running);
                    let found = find_roots(&self.entries, &running, STORE_DIR, &idx);
                    let temp = self.live_temp_roots();
                    let names: Vec<Vec<u8>> =
                        self.disk.keys().map(|k| k.as_bytes().to_vec()).collect();
                    let recent = opts.keep_recent_after;
                    match plan_collection(&graph, &idx, &found, &[], &temp, &names, recent) {
                        Ok(p) => plan = Some(p),
                        Err(_) => panic!("collection refused"),
                    }
                }
                GcStep::Report => {
                    let p = plan.as_ref().unwrap();
                    let dead = dead_indices(&p.liveness.alive);
                    let report = dry_run_report(
                        &graph,
                        &dead,
                        &live.protected_snapshot(),
                        &p.unknown,
                        &live.protected_unknown_snapshot(),
                        opts.max_freed.unwrap_or(u64::MAX),
                    );
                    freed = report.estimated;
                    deleted = (report.nodes.len() + report.names.len()) as u64;
                }
                GcStep::DeleteDead => {
                    let alive = &plan.as_ref().unwrap().liveness.alive;
                    let mut run = DeletionRun::start(&graph, alive);
                    let mut claimed: Vec<u32> = Vec::new();
                    let mut chunk = ChunkStep::Claim;
                    while chunk != ChunkStep::Finish {
                        let mut ok = true;
                        match chunk {
                            ChunkStep::Claim => match run.claim_chunk(&graph, opts, &mut live) {
                                Some(nodes) => claimed = nodes,
                                None => ok = false,
                            },
                            ChunkStep::DropRows => {
                                let paths: Vec<String> = claimed
                                    .iter()
                                    .map(|&n| graph.paths[n as usize].clone())
                                    .collect();
                                self.invalidate(&paths);
                                self.check_refs();
                            }
                            _ => {
                                for &n in &claimed {
                                    let path = &graph.paths[n as usize];
                                    assert!(!self.in_db(path));
                                    let name = disk_name(path, &graph.store_prefix);
                                    let bytes = self.disk.remove(&name).map(|b| b * 512);
                                    run.finish_node(n, Some(bytes.unwrap_or(0)), &mut live);
                                }
                            }
                        }
                        chunk = next_chunk_step(chunk, ok);
                    }
                    freed = run.freed();
                    deleted = run.deleted();
                }
                GcStep::DeleteUnknown => {
                    for raw in &plan.as_ref().unwrap().unknown {
                        let name = String::from_utf8_lossy(raw).into_owned();
                        let valid = self.in_db(&format!("{STORE_DIR}/{name}"));
                        if !still_unknown(true, Some(valid)) {
                            continue;
                        }
                        if !live.try_begin_delete_unknown(&name) {
                            continue;
                        }
                        if !(needs_lock(&name, true) && self.locked.contains(&name)) {
                            let blocks = self.disk.remove(&name).unwrap();
                            match plan_unlink(UnlinkStat::File { blocks }) {
                                UnlinkPlan::RemoveFile(bytes) => freed += bytes,
                                _ => unreachable!(),
                            }
                            deleted += 1;
                        }
                        live.end_delete_unknown(&name);
                    }
                }
                GcStep::Finish => return summary(opts.dry_run, deleted, freed),
            }
            step = next_step(step, opts, freed);
        }
    }
}

fn plain() -> GcOptions {
    GcOptions::default()
}

#[test]
fn gc_deletes_unreferenced_paths() {
    let mut store = TestStore::new();

    let lib = store.add_path("lib", 100);
    let app = store.add_path("app", 200);
    store.add_ref(&app, &lib);
    store.add_root(&app.full);
    let dead = store.add_path("dead", 500);

    store.run_gc(&plain());

    assert!(store.on_disk(&lib) && store.on_disk(&app));
    assert!(store.in_db(&lib.full) && store.in_db(&app.full));
    assert!(!store.on_disk(&dead));
    assert!(!store.in_db(&dead.full));
}

#[test]
fn gc_dry_run_does_not_delete() {
    let mut store = TestStore::new();
    let dead = store.add_path("dead", 500);

    let mut opts = plain();
    opts.dry_run = true;
    let stdout = store.run_gc(&opts);

    assert!(store.on_disk(&dead) && store.in_db(&dead.full));
    assert!(
        stdout.contains("1 store paths would be deleted"),
        "stdout: {stdout}"
    );
    assert_eq!(stdout, "1 store paths would be deleted (~500 bytes)");
}

#[test]
fn gc_keeps_transitive_closure() {
    let mut store = TestStore::new();

    let c = store.add_path("c", 10);
    let b = store.add_path("b", 10);
    let a = store.add_path("a", 10);
    store.add_ref(&a, &b);
    store.add_ref(&b, &c);
    store.add_root(&a.full);
    let trash = store.add_path("trash", 10);

    store.run_gc(&plain());

    assert!(store.on_disk(&a) && store.on_disk(&b) && store.on_disk(&c));
    assert!(!store.on_disk(&trash));
}

#[test]
fn gc_handles_self_references() {
    let mut store = TestStore::new();

    let s = store.add_path("self-ref", 100);
    store.add_ref(&s, &s);
    store.add_root(&s.full);
    let trash = store.add_path("trash", 50);
    store.add_ref(&trash, &trash);

    store.run_gc(&plain());

    assert!(store.on_disk(&s));
    assert!(!store.on_disk(&trash));
}

#[test]
fn gc_removes_unknown_disk_entries() {
    let mut store = TestStore::new();
    let orphan = format!("{}-orphan", fake_hash("orphan"));
    store.disk.insert(orphan.clone(), 16);

    store.run_gc(&plain());

    assert!(!store.disk.contains_key(&orphan));
    assert!(store.disk.contains_key(".links"));
}

#[test]
fn gc_max_freed_stops_early() {
    let mut store = TestStore::new();
    store.add_path("dead1", 100);
    store.add_path("dead2", 100);

    let mut opts = plain();
    opts.max_freed = Some(1);
    let stdout = store.run_gc(&opts);

    assert!(stdout.contains("1 store paths deleted"), "stdout: {stdout}");
}

#[test]
fn gc_keeps_runtime_roots_from_open_fd() {
    let mut store = TestStore::new();
    let held = store.add_path("held", 100);
    let trash = store.add_path("trash", 100);
    store.open_files.push(format!("{}/file", held.full));

    store.run_gc(&plain());

    assert!(store.on_disk(&held) && store.in_db(&held.full));
    assert!(!store.on_disk(&trash));
}

#[test]
fn gc_keeps_runtime_roots_from_environ() {
    let mut store = TestStore::new();
    let held = store.add_path("held", 100);
    let trash = store.add_path("trash", 100);
    store.environ = format!("HOME=/root\0FAST_GC_TEST_PIN={}\0", held.full);

    store.run_gc(&plain());

    assert!(store.on_disk(&held) && store.in_db(&held.full));
    assert!(!store.on_disk(&trash));
}

#[test]
fn gc_runtime_roots_validated_against_db() {
    let mut store = TestStore::new();
    // On disk and held open, but not in the database: it must not be pinned.
    let orphan = format!("{}-orphan", fake_hash("orphan"));
    store.disk.insert(orphan.clone(), 16);
    store.open_files.push(format!("{STORE_DIR}/{orphan}/file"));

    store.run_gc(&plain());

    assert!(!store.disk.contains_key(&orphan));
}

#[test]
fn gc_skips_locked_tmp_dir() {
    let mut store = TestStore::new();
    store.disk.insert("tmp-build-1234".to_owned(), 16);
    store.disk.insert("tmp-build-5678".to_owned(), 16);
    store.locked.push("tmp-build-1234".to_owned());

    store.run_gc(&plain());

    assert!(
        store.disk.contains_key("tmp-build-1234"),
        "locked tmp dir should survive"
    );
    assert!(!store.disk.contains_key("tmp-build-5678"));
}

#[test]
fn gc_ignores_invalid_store_basenames() {
    let mut store = TestStore::new();
    // A root that points at something inside the store directory that is no
    // store path must not become a root.
    store.disk.insert("not-a-store-path".to_owned(), 16);
    store.add_root(&format!("{STORE_DIR}/not-a-store-path"));
    let trash = store.add_path("trash", 100);

    store.run_gc(&plain());

    assert!(!store.on_disk(&trash));
    assert!(!store.disk.contains_key("not-a-store-path"));
}

#[test]
fn gc_keeps_deriver_of_alive_path() {
    let mut store = TestStore::new();
    let drv = store.add_path("pkg.drv", 50);
    let out = store.add_path("pkg", 200);
    store.set_deriver(&out, &drv);
    store.add_root(&out.full);
    let trash = store.add_path("trash", 100);

    store.run_gc(&plain());

    // keep-derivations: a rooted output keeps its derivation alive.
    assert!(store.on_disk(&out) && store.on_disk(&drv));
    assert!(!store.on_disk(&trash));
}

#[test]
fn gc_drops_partial_temp_root() {
    let mut store = TestStore::new();
    let complete = store.add_path("complete", 100);
    let partial = store.add_path("partial", 100);

    // A trailing entry without a zero is a partial write and must not pin.
    let mut data = complete.full.clone().into_bytes();
    data.push(0);
    data.extend_from_slice(partial.full.as_bytes());
    store.temp_roots.push(("99999".to_owned(), true, data));

    store.run_gc(&plain());

    assert!(store.on_disk(&complete));
    assert!(!store.on_disk(&partial));
}

#[test]
fn registered_paths_stay() {
    let mut store = TestStore::new();
    let known = store.add_path("known", 100);
    let dead = store.add_path("dead", 100);
    let fresh = format!("{}-fresh", fake_hash("fresh"));
    store.disk.insert(fresh.clone(), 16);
    let mut data = root_record(&known.full);
    data.extend(root_record(&format!("{STORE_DIR}/{fresh}")));
    store.temp_roots.push(("7".to_owned(), true, data));

    store.run_gc(&plain());

    assert!(store.on_disk(&known) && store.disk.contains_key(&fresh));
    assert!(!store.on_disk(&dead));
}

#[test]
fn gc_removes_stale_temp_roots_file() {
    let mut store = TestStore::new();
    // A temp root file without a live owner: its roots are ignored.
    let dead = store.add_path("dead", 100);
    let mut data = dead.full.clone().into_bytes();
    data.push(0);
    store.temp_roots.push(("12345".to_owned(), false, data));

    store.run_gc(&plain());

    assert!(store.temp_roots.is_empty());
    assert!(!store.on_disk(&dead));
}

#[test]
fn gc_empty_store_is_noop() {
    let mut store = TestStore::new();
    let stdout = store.run_gc(&plain());
    assert!(stdout.contains("0 store paths deleted"), "stdout: {stdout}");
    assert_eq!(stdout, "0 store paths deleted, 0 bytes freed");
}

#[test]
fn siblings_of_running_builds_stay() {
    let mut store = TestStore::new();
    let hash = fake_hash("building");
    let full = format!("{STORE_DIR}/{hash}-building");
    for suffix in ["", ".lock", ".chroot", ".check"] {
        store.disk.insert(format!("{hash}-building{suffix}"), 16);
    }
    store.disk.insert(format!("{}-other.lock", fake_hash("other")), 16);
    let mut data = full.into_bytes();
    data.push(0);
    store.temp_roots.push(("42".to_owned(), true, data));
    store.run_gc(&plain());
    assert_eq!(store.disk.len(), 5);
}

#[test]
fn recent_paths_are_kept() {
    let mut store = TestStore::new();
    let old = store.add_path("old", 1);
    let new = store.add_path("new", 1);
    store
        .conn
        .execute(
            "UPDATE ValidPaths SET registrationTime = 2000 WHERE id = ?",
            [new.id],
        )
        .unwrap();
    let mut opts = plain();
    opts.keep_recent_after = Some(2000);
    store.run_gc(&opts);
    assert!(store.on_disk(&new) && !store.on_disk(&old));
}

#[test]
fn chunks_never_leave_dangling_references() {
    // Chains, a diamond and a cycle, deleted one path per transaction; the
    // references are checked after each.
    let mut store = TestStore::new();
    let p: Vec<Pkg> = (0..12).map(|i| store.add_path(&format!("p{i}"), 10)).collect();
    for (a, b) in [
        (0, 1), (1, 2), (3, 4), (3, 5), (4, 6), (5, 6), (7, 8), (8, 9), (9, 7), (10, 7), (6, 6),
        (8, 11),
    ] {
        store.add_ref(&p[a], &p[b]);
    }
    let mut opts = plain();
    opts.chunk_size = Some(1);
    let stdout = store.run_gc(&opts);
    assert_eq!(stdout, "12 store paths deleted, 96.00 KiB freed");
    assert!(p.iter().all(|p| !store.on_disk(p)));
}

#[test]
fn foreign_store_directory_is_refused() {
    let g = StoreGraph::from_edges(
        vec!["/nix/store/x".to_owned()],
        vec![1],
        vec![1],
        &[],
        "/other/store/".to_owned(),
    );
    let idx = BasenameIndex::new(&g);
    match plan_collection(&g, &idx, &[], &[], &[], &[], None) {
        Ok(_) => panic!("must be refused"),
        Err(fast_nix_gc::gc::GcRefusal::StoreDirMismatch(p)) => assert_eq!(p, "/nix/store/x"),
    }
}

#[test]
fn early_roots_are_replayed() {
    let g = StoreGraph::from_edges(
        vec!["/s/a".to_owned(), "/s/b".to_owned()],
        vec![1, 1],
        vec![1, 1],
        &[(0, 1)],
        "/s/".to_owned(),
    );
    let idx = BasenameIndex::new(&g);
    let mut live = LiveSet::new(2);
    let early = vec!["zzz".to_owned(), "a".to_owned()];
    let nodes = replay_early_roots(&early, &idx, &mut live);
    assert_eq!(nodes, vec![0]);
    assert!(!live.try_begin_delete_unknown("zzz"));
    let plan = plan_collection(&g, &idx, &[], &nodes, &[], &[], None).ok().unwrap();
    assert_eq!(plan.liveness.alive, vec![true, true]);
}

#[test]
fn protected_paths_survive_a_collection_under_way() {
    // 0 -> 1, 2; one path per chunk. 1 is protected after 0 went.
    let g = StoreGraph::from_edges(
        vec!["/s/a".to_owned(), "/s/b".to_owned(), "/s/c".to_owned()],
        vec![1, 1, 1],
        vec![1, 1, 1],
        &[(0, 1)],
        "/s/".to_owned(),
    );
    let idx = BasenameIndex::new(&g);
    let mut live = LiveSet::new(3);
    let mut opts = plain();
    opts.chunk_size = Some(1);
    let mut run = DeletionRun::start(&g, &[false; 3]);
    assert_eq!(run.total(), 3);
    let mut gone = Vec::new();
    while let Some(claimed) = run.claim_chunk(&g, &opts, &mut live) {
        for n in claimed {
            gone.push(n);
            run.finish_node(n, Some(512), &mut live);
        }
        if gone == [0] {
            assert!(live.begin_protect("b", &g, &idx).is_empty());
        }
    }
    assert_eq!(gone, vec![0, 2]);
    assert_eq!((run.deleted(), run.freed()), (2, 1024));
}

#[test]
fn failed_unlinks_free_nothing() {
    let g = StoreGraph::from_edges(
        vec!["/s/a".to_owned()],
        vec![1],
        vec![1],
        &[],
        "/s/".to_owned(),
    );
    let mut live = LiveSet::new(1);
    let mut run = DeletionRun::start(&g, &[false]);
    assert_eq!(run.claim_chunk(&g, &plain(), &mut live), Some(vec![0]));
    run.finish_node(0, None, &mut live);
    assert_eq!((run.deleted(), run.freed()), (1, 0));
    assert_eq!(run.claim_chunk(&g, &plain(), &mut live), None);
    assert!(!live.conflict(&[0], "a"));
}

#[test]
fn unlinks_are_planned_by_what_is_there() {
    assert!(plan_unlink(UnlinkStat::Missing) == UnlinkPlan::Nothing);
    assert!(plan_unlink(UnlinkStat::Failed) == UnlinkPlan::Fail);
    assert!(plan_unlink(UnlinkStat::Directory) == UnlinkPlan::RemoveTree);
    assert!(plan_unlink(UnlinkStat::File { blocks: 10 }) == UnlinkPlan::RemoveFile(5120));
}

#[test]
fn links_without_users_are_removed() {
    assert!(matches!(link_action(1, 100), LinkAction::Remove));
    assert!(matches!(link_action(2, 100), LinkAction::Keep(0)));
    assert!(matches!(link_action(5, 100), LinkAction::Keep(300)));
    assert!(matches!(link_action(0, 100), LinkAction::Keep(0)));
}

#[test]
fn unknown_entries_are_checked_again() {
    assert!(still_unknown(false, None));
    assert!(still_unknown(true, Some(false)));
    assert!(!still_unknown(true, Some(true)));
    assert!(!still_unknown(true, None));
    assert!(needs_lock("tmp-x", true) && !needs_lock("tmp-x", false) && !needs_lock("x", true));
}

#[test]
fn dry_runs_change_nothing_and_need_no_socket() {
    let mut opts = plain();
    assert!(socket_failure_is_fatal(&opts));
    assert!(first_step(&opts) == GcStep::FreeReserve);
    opts.dry_run = true;
    assert!(!socket_failure_is_fatal(&opts));
    let mut step = first_step(&opts);
    let mut seen = Vec::new();
    while step != GcStep::Finish {
        seen.push(step);
        step = next_step(step, &opts, 0);
    }
    assert!(seen
        == vec![
            GcStep::TakeLock,
            GcStep::ServeEarly,
            GcStep::LoadGraph,
            GcStep::ServeGraph,
            GcStep::FindRoots,
            GcStep::Report,
        ]);
}

#[test]
fn vacuuming_can_be_skipped() {
    let mut opts = plain();
    assert!(next_step(GcStep::CleanLinks, &opts, 0) == GcStep::Vacuum);
    opts.no_vacuum = true;
    assert!(next_step(GcStep::CleanLinks, &opts, 0) == GcStep::Finish);
    opts.max_freed = Some(5);
    assert!(next_step(GcStep::DeleteDead, &opts, 5) == GcStep::CleanLinks);
    assert!(next_step(GcStep::DeleteDead, &opts, 4) == GcStep::DeleteUnknown);
}

/// A chain of `n` paths, each referencing the next, nothing of it alive.
fn dead_chain(n: u32) -> StoreGraph {
    let edges: Vec<(u32, u32)> = (1..n).map(|i| (i - 1, i)).collect();
    StoreGraph::from_edges(
        (0..n).map(|i| format!("{STORE_DIR}/p{i}")).collect(),
        vec![1; n as usize],
        vec![0; n as usize],
        &edges,
        format!("{STORE_DIR}/"),
    )
}

#[test]
fn clients_wait_for_claimed_nodes() {
    let g = dead_chain(3);
    let idx = BasenameIndex::new(&g);
    let mut live = LiveSet::new(3);
    let mut run = DeletionRun::start(&g, &[false; 3]);
    let mut opts = plain();
    opts.chunk_size = Some(2);
    assert!(live.try_begin_delete_unknown("stray"));
    let claimed = run.claim_chunk(&g, &opts, &mut live).unwrap();
    assert_eq!(claimed, [0, 1]);

    // Nothing but the claimed nodes has changed.
    assert_eq!(live.protected_snapshot(), [false; 3]);
    assert!(live.protected_unknown_snapshot().is_empty());
    assert!(live.conflict(&[], "stray"));
    assert!(!live.conflict(&[2], "p2"));

    let wait_for = live.begin_protect("p0", &g, &idx);
    assert!(wait_for.contains(&0) && wait_for.contains(&1) && !wait_for.contains(&2));
    assert!(live.conflict(&wait_for, "p0"));
    run.finish_node(0, Some(1), &mut live);
    assert!(live.conflict(&wait_for, "p0"), "acked while p1 is being unlinked");
    run.finish_node(1, None, &mut live);
    assert!(!live.conflict(&wait_for, "p0"));

    // What was protected meanwhile is passed over.
    assert!(run.claim_chunk(&g, &opts, &mut live).unwrap().is_empty());
    assert!(!live.conflict(&[2], "p2"));
    assert_eq!((run.freed(), run.deleted()), (1, 2));
}

#[test]
fn dry_run_names_what_a_run_deletes() {
    let g = dead_chain(7);
    let alive = [false, false, false, false, false, true, true];
    let idx = BasenameIndex::new(&g);
    for chunk_size in [1, 2, 100] {
        let mut live = LiveSet::new(7);
        live.begin_protect("p4", &g, &idx);
        let dead = dead_indices(&alive);
        let protected = live.protected_snapshot();
        let listed = dry_run_report(&g, &dead, &protected, &[], &[], u64::MAX).nodes;
        let mut opts = plain();
        opts.chunk_size = Some(chunk_size);
        let mut run = DeletionRun::start(&g, &alive);
        let mut claimed: Vec<u32> = Vec::new();
        while let Some(chunk) = run.claim_chunk(&g, &opts, &mut live) {
            assert!(chunk.len() <= chunk_size);
            for &n in &chunk {
                run.finish_node(n, Some(0), &mut live);
            }
            claimed.extend(chunk);
        }
        assert_eq!(listed, [0, 1, 2, 3]);
        claimed.sort_unstable();
        assert_eq!(claimed, listed);
        assert_eq!(run.deleted() as usize, listed.len());
    }
}

#[test]
fn rows_go_before_disk_entries() {
    assert!(next_chunk_step(ChunkStep::Claim, true) == ChunkStep::DropRows);
    assert!(next_chunk_step(ChunkStep::DropRows, true) == ChunkStep::Unlink);
    assert!(next_chunk_step(ChunkStep::DropRows, false) == ChunkStep::Fail);
    assert!(next_chunk_step(ChunkStep::Unlink, true) == ChunkStep::Claim);
    assert!(next_chunk_step(ChunkStep::Claim, false) == ChunkStep::Finish);
    for step in [ChunkStep::Finish, ChunkStep::Fail] {
        assert!(next_chunk_step(step, true) == step);
    }
}

#[test]
fn trees_free_the_sum_of_their_entries() {
    assert_eq!(bytes_of_tree(&[]), Some(0));
    assert_eq!(bytes_of_tree(&[8, 0, 1]), Some(4608));
    assert_eq!(bytes_of_tree(&[u64::MAX / 512]), Some(u64::MAX - 511));
    assert_eq!(bytes_of_tree(&[u64::MAX / 512, 1]), None);
    assert_eq!(bytes_of_tree(&[u64::MAX / 512 + 1]), None);
}

#[test]
fn both_runs_count_the_same_paths() {
    let mut store = TestStore::new();
    let lib = store.add_path("lib", 100);
    let app = store.add_path("app", 200);
    store.add_ref(&app, &lib);
    let kept = store.add_path("kept", 5);
    store.add_root(&kept.full);
    let mut dry = plain();
    dry.dry_run = true;
    let would = store.run_gc(&dry);
    assert!(would.starts_with("2 store paths would be deleted"), "{would}");
    assert!(store.on_disk(&lib) && store.in_db(&lib.full) && store.in_db(&app.full));
    let done = store.run_gc(&plain());
    assert!(done.starts_with("2 store paths deleted"), "{done}");
    assert!(!store.in_db(&lib.full) && !store.in_db(&app.full) && store.in_db(&kept.full));
}

#[test]
fn every_transaction_is_safe() {
    // Two chains that meet, and a cycle with a path behind it.
    let edges: Vec<(u32, u32)> = vec![(0, 2), (1, 2), (2, 3), (4, 5), (5, 4), (5, 6), (7, 0)];
    let g = StoreGraph::from_edges(
        (0..8).map(|i| format!("{STORE_DIR}/p{i}")).collect(),
        vec![1; 8],
        vec![0; 8],
        &edges,
        format!("{STORE_DIR}/"),
    );
    let idx = BasenameIndex::new(&g);
    for (chunk_size, asked, when) in [(1, "p2", 1), (1, "p5", 2), (2, "p0", 0), (3, "p6", 1)] {
        let mut live = LiveSet::new(8);
        let mut run = DeletionRun::start(&g, &[false; 8]);
        let mut opts = plain();
        opts.chunk_size = Some(chunk_size);
        let mut removed: Vec<u32> = Vec::new();
        for turn in 0.. {
            if turn == when {
                live.begin_protect(asked, &g, &idx);
            }
            let Some(claimed) = run.claim_chunk(&g, &opts, &mut live) else {
                break;
            };
            assert!(claimed.len() <= chunk_size || claimed.contains(&4));
            for &n in &claimed {
                run.finish_node(n, Some(0), &mut live);
            }
            removed.extend(claimed);
            for &(from, to) in &edges {
                assert!(removed.contains(&from) || !removed.contains(&to), "{from} -> {to}");
            }
        }
        let name = format!("{STORE_DIR}/{asked}");
        let kept = g.paths.iter().position(|p| *p == name).unwrap() as u32;
        assert!(!removed.contains(&kept));
    }
}
