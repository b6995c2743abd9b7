use fast_nix_gc::db::{
    bool_setting, edge_query, invalidate_sql, join_path, next_invalidate_step, next_load_step,
    normalize_dir,
    wants_vacuum, InvalidateStep, LoadStep, NixDb, PathRow, MAX_ID_QUERY, ROWS_QUERY,
};
use fast_nix_gc::graph::{BasenameIndex, StoreGraph};
use rusqlite::Connection;

const H1: &str = "aaaaaaaaaaaaaaaaaaaaaaaaaaaaaaaa";
const H2: &str = "bbbbbbbbbbbbbbbbbbbbbbbbbbbbbbbb";
const H3: &str = "cccccccccccccccccccccccccccccccc";

struct TestDb {
    conn: Connection,
    db: NixDb,
}

fn full(name: &str) -> String {
    format!("/nix/store/{name}")
}

fn setup() -> TestDb {
    let conn = Connection::open_in_memory().unwrap();
    conn.execute_batch(
        "CREATE TABLE ValidPaths (
             id integer primary key autoincrement not null,
             path text unique not null,
             hash text not null,
             registrationTime integer not null,
             deriver text,
             narSize integer
         );
         CREATE TABLE Refs (
             referrer integer not null,
             reference integer not null,
             primary key (referrer, reference),
             foreign key (reference) references ValidPaths(id) on delete restrict
         );
         CREATE TABLE DerivationOutputs (
             drv integer not null,
             id text not null,
             path text not null,
             primary key (drv, id),
             foreign key (drv) references ValidPaths(id) on delete cascade
         );",
    )
    .unwrap();
    conn.pragma_update(None, "foreign_keys", "ON").unwrap();
    TestDb {
        conn,
        db: NixDb::new(b"/nix/store", b"/nix/var/nix", false, false),
    }
}

fn add_path(t: &TestDb, name: &str, nar_size: i64, reg_time: i64) -> i64 {
    t.conn
        .execute(
            "INSERT INTO ValidPaths (path, hash, registrationTime, narSize) \
             VALUES (?, 'sha256:x', ?, ?)",
            (full(name), reg_time, nar_size),
        )
        .unwrap();
    t.conn.last_insert_rowid()
}

fn add_ref(t: &TestDb, referrer: i64, reference: i64) {
    t.conn
        .execute(
            "INSERT INTO Refs (referrer, reference) VALUES (?, ?)",
            (referrer, reference),
        )
        .unwrap();
}

fn has_table(conn: &Connection, name: &str) -> bool {
    let count: i64 = conn
        .query_row(
            "SELECT COUNT(*) FROM sqlite_master WHERE type='table' AND name=?",
            [name],
            |r| r.get(0),
        )
        .unwrap();
    count > 0
}

fn load_graph(t: &TestDb) -> StoreGraph {
    let max_id: i64 = t.conn.query_row(MAX_ID_QUERY, [], |r| r.get(0)).unwrap();
    let mut stmt = t.conn.prepare(ROWS_QUERY).unwrap();
    let rows: Vec<PathRow> = stmt
        .query_map([], |r| {
            Ok(PathRow {
                id: r.get(0)?,
                path: r.get(1)?,
                nar_size: r.get(2)?,
                registration_time: r.get(3)?,
            })
        })
        .unwrap()
        .map(|r| r.unwrap())
        .collect();
    let trace = t.db.wants_build_trace() && has_table(&t.conn, "BuildTraceV3");
    let prefix = t.db.store_prefix();
    let mut edges: Vec<(i64, i64)> = Vec::new();
    for source in t.db.edge_sources(trace) {
        let mut stmt = t.conn.prepare(&edge_query(source, &prefix)).unwrap();
        let found = stmt
            .query_map([], |r| Ok((r.get(0)?, r.get(1)?)))
            .unwrap();
        for edge in found {
            edges.push(edge.unwrap());
        }
    }
    t.db.load_graph(max_id, rows, &edges)
}

fn valid_paths(t: &TestDb) -> Vec<String> {
    let mut stmt = t.conn.prepare("SELECT path FROM ValidPaths").unwrap();
    let rows = stmt.query_map([], |r| r.get::<_, String>(0)).unwrap();
    rows.map(|r| r.unwrap()).collect()
}

fn invalidate_paths(t: &TestDb, paths: &[String]) -> InvalidateStep {
    let realisations = has_table(&t.conn, "Realisations");
    let mut step = InvalidateStep::Begin;
    loop {
        let sql = invalidate_sql(step);
        let ok = match step {
            InvalidateStep::Finish | InvalidateStep::Fail => return step,
            InvalidateStep::CollectDead => {
                let mut ins = t.conn.prepare(sql).unwrap();
                paths.iter().all(|p| ins.execute([p]).is_ok())
            }
            _ => t.conn.execute_batch(sql).is_ok(),
        };
        step = next_invalidate_step(step, ok, realisations);
    }
}

fn count(t: &TestDb, table: &str) -> i64 {
    t.conn
        .query_row(&format!("SELECT COUNT(*) FROM {table}"), [], |r| r.get(0))
        .unwrap()
}

#[test]
fn load_graph_builds_csr() {
    let t = setup();
    let a = add_path(&t, &format!("{H1}-a"), 100, 1000);
    let b = add_path(&t, &format!("{H2}-b"), 200, 2000);
    let c = add_path(&t, &format!("{H3}-c"), 300, 3000);
    // Two edges from one node exercise the cursor of the row.
    add_ref(&t, a, b);
    add_ref(&t, a, c);

    let g = load_graph(&t);
    assert_eq!(g.len(), 3);
    assert!(!g.is_empty());
    let ia = g
        .paths
        .iter()
        .position(|p| p == &full(&format!("{H1}-a")))
        .unwrap();
    let ib = g
        .paths
        .iter()
        .position(|p| p == &full(&format!("{H2}-b")))
        .unwrap();
    let ic = g
        .paths
        .iter()
        .position(|p| p == &full(&format!("{H3}-c")))
        .unwrap();
    assert_eq!(g.nar_sizes[ia], 100);
    assert_eq!(g.registration_times[ic], 3000);
    let mut refs_a = g.refs(ia as u32).to_vec();
    refs_a.sort();
    let mut expected = vec![ib as u32, ic as u32];
    expected.sort();
    assert_eq!(refs_a, expected);
    assert!(g.refs(ib as u32).is_empty());
    assert!(g.refs(ic as u32).is_empty());
}

#[test]
fn empty_graph() {
    let t = setup();
    let g = load_graph(&t);
    assert_eq!(g.len(), 0);
    assert!(g.is_empty());
}

#[test]
fn store_dir_typed_uses_configured_dir() {
    // The typed view must not fall back to /nix/store.
    let db = NixDb::new(b"/custom/store", b"/nix/var/nix", false, false);
    assert_eq!(db.store_dir_typed().unwrap(), "/custom/store");
}

#[test]
fn load_graph_ignores_edges_with_unknown_ids() {
    let t = setup();
    let a = add_path(&t, &format!("{H1}-a"), 100, 1000);
    // Dangling edges must be dropped, not crash or corrupt the graph.
    t.conn.pragma_update(None, "foreign_keys", "OFF").unwrap();
    t.conn
        .execute_batch(&format!("INSERT INTO Refs VALUES ({a}, 9999), (9999, {a})"))
        .unwrap();
    let g = load_graph(&t);
    assert!(g.refs(0).is_empty());
}

#[test]
fn load_graph_keep_derivations_adds_output_to_drv_edge() {
    let mut t = setup();
    add_path(&t, &format!("{H1}-pkg.drv"), 10, 1000);
    let out = add_path(&t, &format!("{H2}-pkg"), 100, 1000);
    t.conn
        .execute(
            "UPDATE ValidPaths SET deriver = ? WHERE id = ?",
            (full(&format!("{H1}-pkg.drv")), out),
        )
        .unwrap();

    t.db.keep_derivations = true;
    let g = load_graph(&t);
    let iout = g.paths.iter().position(|p| p.ends_with("-pkg")).unwrap() as u32;
    let idrv = g.paths.iter().position(|p| p.ends_with(".drv")).unwrap() as u32;
    assert_eq!(g.refs(iout), &[idrv]);
    assert!(g.refs(idrv).is_empty());

    // keep-outputs adds the reverse edge.
    t.db.keep_outputs = true;
    let g = load_graph(&t);
    assert_eq!(g.refs(idrv), &[iout]);
}

#[test]
fn load_graph_build_trace_edges() {
    let mut t = setup();
    let drv_base = format!("{H1}-pkg.drv");
    add_path(&t, &drv_base, 10, 1000);
    add_path(&t, &format!("{H2}-pkg"), 100, 1000);
    t.conn
        .execute_batch(&format!(
            "CREATE TABLE BuildTraceV3 (
                 id integer primary key autoincrement not null,
                 drvPath text not null,
                 outputName text not null,
                 outputPath text not null,
                 signatures text
             );
             INSERT INTO BuildTraceV3 (drvPath, outputName, outputPath)
             VALUES ('{drv_base}', 'out', '{}');",
            full(&format!("{H2}-pkg"))
        ))
        .unwrap();

    t.db.keep_derivations = true;
    let g = load_graph(&t);
    let iout = g.paths.iter().position(|p| p.ends_with("-pkg")).unwrap() as u32;
    let idrv = g.paths.iter().position(|p| p.ends_with(".drv")).unwrap() as u32;
    assert_eq!(g.refs(iout), &[idrv]);

    t.db.keep_derivations = false;
    t.db.keep_outputs = true;
    let g = load_graph(&t);
    assert_eq!(g.refs(idrv), &[iout]);
}

#[test]
fn recorded_outputs_give_edges_in_both_directions() {
    let mut t = setup();
    let drv = add_path(&t, &format!("{H1}-pkg.drv"), 10, 1000);
    add_path(&t, &format!("{H2}-pkg"), 100, 1000);
    t.conn
        .execute(
            "INSERT INTO DerivationOutputs (drv, id, path) VALUES (?, 'out', ?)",
            (drv, full(&format!("{H2}-pkg"))),
        )
        .unwrap();
    assert!(load_graph(&t).ref_targets.is_empty());
    t.db.keep_derivations = true;
    let g = load_graph(&t);
    assert_eq!(g.refs(1), &[0]);
    assert!(g.refs(0).is_empty());
    t.db.keep_derivations = false;
    t.db.keep_outputs = true;
    let g = load_graph(&t);
    assert_eq!(g.refs(0), &[1]);
    assert!(g.refs(1).is_empty());
}

#[test]
fn valid_paths_and_typed_variants() {
    let t = setup();
    add_path(&t, &format!("{H1}-a"), 1, 1);
    add_path(&t, &format!("{H2}-b"), 1, 1);

    let mut paths = valid_paths(&t);
    paths.sort();
    assert_eq!(
        paths,
        vec![full(&format!("{H1}-a")), full(&format!("{H2}-b"))]
    );

    assert_eq!(t.db.store_dir_typed().unwrap(), "/nix/store");

    let Ok(names) = t.db.valid_store_paths(&paths) else {
        panic!("store paths must parse");
    };
    assert_eq!(names.len(), 2);
    assert!(names.iter().any(|n| n.ends_with("-a")), "{names:?}");
}

#[test]
fn rows_that_are_no_store_paths_are_errors() {
    let t = setup();
    let good = full(&format!("{H1}-a"));
    let bad = full("short-b");
    let worse = full(&format!("{H3}-c d"));
    let refused = |rows: &[String]| match t.db.valid_store_paths(rows) {
        Ok(_) => panic!("{rows:?} must be rejected"),
        Err(e) => (e.path, e.reason),
    };
    assert_eq!(
        refused(&[good.clone(), bad.clone(), worse.clone()]),
        (
            bad.clone(),
            format!("parse error {bad}, invalid store path hash length")
        )
    );
    assert_eq!(
        refused(&[good, worse.clone()]),
        (
            worse.clone(),
            format!("parse error {worse}, invalid store path   symbol at 34")
        )
    );
    let outside = "/elsewhere/x".to_owned();
    assert_eq!(
        refused(&[outside]).1,
        "parse error /elsewhere/x, path \"/elsewhere/x\" is not in store"
    );
}

#[test]
fn trailing_slashes_do_not_matter() {
    for dir in [&b"/nix/store"[..], b"/nix/store/", b"/", b"//", b"a"] {
        let mut longer = dir.to_vec();
        longer.push(b'/');
        assert_eq!(normalize_dir(&longer), normalize_dir(dir));
        assert_eq!(normalize_dir(&normalize_dir(dir)), normalize_dir(dir));
    }
}

#[test]
fn absolute_paths_read_back() {
    let t = setup();
    let base = format!("{H1}-a.b+c_d?e=f");
    let path = t.db.absolute_path(&base).unwrap();
    assert_eq!(path, full(&base));
    assert_eq!(t.db.valid_store_paths(&[path]).ok().unwrap(), vec![base.clone()]);
    let raw = NixDb::new(b"/nix/\xff", b"/s", false, false);
    assert!(raw.absolute_path(&base).is_none());
    assert!(raw.store_dir_typed().is_none());
}

#[test]
fn invalidate_paths_handles_ref_cycles() {
    let t = setup();
    let a = add_path(&t, &format!("{H1}-a"), 1, 1);
    let b = add_path(&t, &format!("{H2}-b"), 1, 1);
    add_path(&t, &format!("{H3}-c"), 1, 1);
    // Cycle between the two dead paths; the foreign keys would reject
    // row-by-row deletion.
    add_ref(&t, a, b);
    add_ref(&t, b, a);

    let dead = [full(&format!("{H1}-a")), full(&format!("{H2}-b"))];
    assert!(invalidate_paths(&t, &dead) == InvalidateStep::Finish);

    assert_eq!(valid_paths(&t), vec![full(&format!("{H3}-c"))]);
    assert_eq!(count(&t, "Refs"), 0);
}

#[test]
fn invalidate_paths_cascades_derivation_outputs() {
    let t = setup();
    let drv = add_path(&t, &format!("{H1}-pkg.drv"), 1, 1);
    add_path(&t, &format!("{H2}-pkg"), 1, 1);
    t.conn
        .execute(
            "INSERT INTO DerivationOutputs (drv, id, path) VALUES (?, 'out', ?)",
            (drv, full(&format!("{H2}-pkg"))),
        )
        .unwrap();

    let dead = [full(&format!("{H1}-pkg.drv"))];
    assert!(invalidate_paths(&t, &dead) == InvalidateStep::Finish);
    assert_eq!(count(&t, "DerivationOutputs"), 0, "row orphaned");
}

#[test]
fn invalidate_paths_clears_realisations_with_restrict_fk() {
    // Bulk-deleting two dead paths whose realisations reference each other
    // must not trip the constraint.
    let t = setup();
    t.conn
        .execute_batch(
            "CREATE TABLE Realisations (
                 id integer primary key autoincrement not null,
                 drvPath text not null,
                 outputName text not null,
                 outputPath integer not null references ValidPaths(id) on delete cascade,
                 signatures text
             );
             CREATE TABLE RealisationsRefs (
                 referrer integer not null,
                 realisationReference integer,
                 foreign key (referrer) references Realisations(id) on delete cascade,
                 foreign key (realisationReference) references Realisations(id) on delete restrict
             );",
        )
        .unwrap();
    let a = add_path(&t, &format!("{H1}-a"), 1, 1);
    let b = add_path(&t, &format!("{H2}-b"), 1, 1);
    t.conn
        .execute_batch(&format!(
            "INSERT INTO Realisations (drvPath, outputName, outputPath) \
                 VALUES ('sha256:a!out', 'out', {a}), ('sha256:b!out', 'out', {b});
             INSERT INTO RealisationsRefs (referrer, realisationReference) VALUES (1, 2);"
        ))
        .unwrap();

    let dead = [full(&format!("{H1}-a")), full(&format!("{H2}-b"))];
    assert!(invalidate_paths(&t, &dead) == InvalidateStep::Finish);

    for table in ["Realisations", "RealisationsRefs", "ValidPaths"] {
        assert_eq!(count(&t, table), 0, "{table} not cleared");
    }
}

#[test]
fn failing_statement_takes_the_removal_back() {
    let t = setup();
    add_path(&t, &format!("{H1}-a"), 1, 1);
    t.conn.execute_batch("DROP TABLE Refs").unwrap();
    let dead = [full(&format!("{H1}-a"))];
    assert!(invalidate_paths(&t, &dead) == InvalidateStep::Fail);
    assert_eq!(valid_paths(&t), vec![full(&format!("{H1}-a"))]);
    // The connection is usable again.
    t.conn.execute_batch("BEGIN; COMMIT").unwrap();
}

#[test]
fn basename_index_lookups() {
    let t = setup();
    add_path(&t, &format!("{H1}-a"), 1, 1);
    add_path(&t, &format!("{H2}-b"), 1, 1);
    add_path(&t, &format!("{H3}-c"), 1, 1);
    let g = load_graph(&t);
    let bidx = BasenameIndex::new(&g);

    let ic = g.paths.iter().position(|p| p.ends_with("-c")).unwrap() as u32;
    assert_eq!(bidx.idx_of(&full(&format!("{H3}-c"))), Some(ic));
    assert_eq!(bidx.idx_of_basename(&format!("{H3}-c")), Some(ic));
    assert_eq!(bidx.idx_of("/elsewhere/x"), None);
    assert_eq!(bidx.idx_of_basename("nope"), None);
}

#[test]
fn compute_closure_marks_reachable_only() {
    let t = setup();
    let a = add_path(&t, &format!("{H1}-a"), 1, 1);
    let b = add_path(&t, &format!("{H2}-b"), 1, 1);
    add_path(&t, &format!("{H3}-c"), 1, 1);
    add_ref(&t, a, b);
    // Cycle must terminate.
    add_ref(&t, b, a);

    let g = load_graph(&t);
    let ia = g.paths.iter().position(|p| p.ends_with("-a")).unwrap() as u32;
    let ic = g.paths.iter().position(|p| p.ends_with("-c")).unwrap();
    // Duplicate roots must not double-visit.
    let alive = g.compute_closure(&[ia, ia]);
    assert_eq!(alive.len(), 3);
    assert_eq!(alive.iter().filter(|&&x| x).count(), 2);
    assert!(!alive[ic]);
}

#[test]
fn sizes_are_never_negative() {
    let t = setup();
    add_path(&t, "x", -5, 1);
    t.conn
        .execute(
            "INSERT INTO ValidPaths (path, hash, registrationTime) VALUES ('/nix/store/y', 'h', 2)",
            [],
        )
        .unwrap();
    assert_eq!(load_graph(&t).nar_sizes, vec![0, 0]);
}

#[test]
fn directories_lose_trailing_slashes() {
    assert_eq!(normalize_dir(b"/nix/store//"), b"/nix/store".to_vec());
    assert_eq!(normalize_dir(b"/nix/store"), b"/nix/store".to_vec());
    assert_eq!(normalize_dir(b"///"), b"/".to_vec());
    assert_eq!(normalize_dir(b""), b"".to_vec());
    let db = NixDb::new(b"/nix/store/", b"/state", true, false);
    assert_eq!(db.store_prefix(), "/nix/store/");
    assert_eq!(db.links_dir, b"/nix/store/.links".to_vec());
    assert_eq!(db.real_store_dir, b"/nix/store".to_vec());
    assert_eq!(join_path(b"/a/", b"b"), b"/a/b".to_vec());
    let raw = NixDb::new(b"/nix/\xff", b"/state", true, false);
    assert_eq!(raw.store_prefix(), "/nix/\u{fffd}/");
}

#[test]
fn vacuum_wants_a_quarter_free() {
    assert!(wants_vacuum(100, 25));
    assert!(!wants_vacuum(100, 24));
    assert!(wants_vacuum(u64::MAX, u64::MAX));
}

#[test]
fn settings_have_defaults() {
    assert!(bool_setting(Some("true\n"), false));
    assert!(!bool_setting(Some("false\n"), true));
    assert!(bool_setting(Some("maybe"), true));
    assert!(!bool_setting(None, false));
}

#[test]
fn failed_loads_are_rolled_back() {
    let t = setup();
    let load = |broken: bool| {
        let mut step = LoadStep::Begin;
        loop {
            let ok = match step {
                LoadStep::Begin => t.conn.execute_batch("BEGIN").is_ok(),
                LoadStep::Read if broken => t.conn.execute_batch("SELECT x FROM None").is_ok(),
                LoadStep::Read => {
                    assert!(!t.conn.is_autocommit());
                    true
                }
                LoadStep::Commit => t.conn.execute_batch("COMMIT").is_ok(),
                LoadStep::Rollback => t.conn.execute_batch("ROLLBACK").is_ok(),
                LoadStep::Finish => return true,
                LoadStep::Fail => return false,
            };
            step = next_load_step(step, ok);
        }
    };
    assert!(!load(true));
    assert!(t.conn.is_autocommit(), "the connection must stay usable");
    assert!(load(false));
    assert!(t.conn.is_autocommit());
    assert!(next_load_step(LoadStep::Begin, false) == LoadStep::Fail);
    assert!(next_load_step(LoadStep::Commit, false) == LoadStep::Fail);
}
