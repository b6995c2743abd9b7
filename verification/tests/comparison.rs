use fast_nix_gc::comparison::{
    apply_corruption, compare_gc, corruption_of_draw, dead_lines, diff_sets, is_listed,
    junk_basename, needs_entry, to_set, undamaged, validate_alone, Corruption, CorruptionAction,
    CorruptionEffects, LoneOutcome, Outcome, CORRUPTION_DRAWS, MAX_CORRUPTIONS,
};
use fast_nix_gc::roots::is_store_path_basename;

const STORE: &str = "/t/nix/store";

fn texts(list: &[&str]) -> Vec<String> {
    list.iter().map(|s| s.to_string()).collect()
}

fn paths(list: &[&str]) -> Vec<String> {
    list.iter().map(|s| format!("{STORE}/{s}")).collect()
}

fn effects(junk: &[&str], deleted: &[&str]) -> CorruptionEffects {
    CorruptionEffects {
        junk: texts(junk),
        deleted: texts(deleted),
    }
}

#[test]
fn junk_looks_like_store_paths() {
    let name = junk_basename(3, "junkdir");
    assert_eq!(name, "zzzzzzzzzzzzzzzzzzzzzzzzzzzzzzz3-junkdir3");
    assert!(is_store_path_basename(&name));
    assert_eq!(junk_basename(12, "x"), format!("{}2-x12", "z".repeat(31)));
    assert_ne!(junk_basename(1, "x"), junk_basename(11, "x"));
}

#[test]
fn draws_give_every_corruption() {
    let mut seen = Vec::new();
    for k in 0..CORRUPTION_DRAWS {
        let op = corruption_of_draw(k);
        assert!(!seen.contains(&op));
        seen.push(op);
    }
    assert!(needs_entry(Corruption::DeleteOnDisk) && needs_entry(Corruption::StaleTempRoot));
    assert!(!needs_entry(Corruption::JunkDir));
}

#[test]
fn corruptions_are_recorded() {
    let mut entries = texts(&["a", "b", "c"]);
    let mut fx = CorruptionEffects::new();
    let mut apply = |op, i, pick| apply_corruption(op, i, pick, STORE, &mut entries, &mut fx);

    assert!(matches!(apply(Corruption::DeleteOnDisk, 0, 1), CorruptionAction::Remove(n) if n == "b"));
    assert!(matches!(apply(Corruption::DeleteOnDisk, 1, 1), CorruptionAction::Remove(n) if n == "c"));
    assert!(matches!(apply(Corruption::JunkDir, 2, 0), CorruptionAction::MakeDir(n)
        if n == junk_basename(2, "junkdir")));
    assert!(matches!(apply(Corruption::JunkFile, 3, 0), CorruptionAction::MakeFile(n)
        if n == junk_basename(3, "junkfile")));
    assert!(matches!(apply(Corruption::JunkFileBadName, 4, 0), CorruptionAction::MakeFile(n)
        if n == "junkfile-4"));
    assert!(matches!(apply(Corruption::DanglingRoot, 5, 0), CorruptionAction::LinkRoot(n, p)
        if n == "dangling-5" && p == format!("{STORE}/{}", junk_basename(5, "missing"))));
    assert!(matches!(apply(Corruption::OutsideRoot, 6, 0), CorruptionAction::LinkOutside(n)
        if n == "outside-6"));
    assert!(matches!(apply(Corruption::StaleTempRoot, 7, 0), CorruptionAction::WriteTempRoots(n, c)
        if n == "4000007" && c == format!("{STORE}/a\0")));

    assert_eq!(entries, texts(&["a"]));
    assert_eq!(fx.deleted, texts(&["b", "c"]));
    assert_eq!(
        fx.junk,
        vec![
            junk_basename(2, "junkdir"),
            junk_basename(3, "junkfile"),
            "junkfile-4".to_owned()
        ]
    );

    let mut none = Vec::new();
    let action = apply_corruption(Corruption::DeleteOnDisk, 0, 0, STORE, &mut none, &mut fx);
    assert!(matches!(action, CorruptionAction::Nothing));
}

#[test]
fn locks_and_links_are_not_listed() {
    assert!(is_listed("abc-x"));
    assert!(!is_listed(".links") && !is_listed(".gc-lock") && !is_listed("abc-x.lock"));
    assert!(is_listed("abc.lock-x"));
}

#[test]
fn differences_are_found() {
    let a = to_set(&texts(&["x", "y", "x", "z"]));
    let b = to_set(&texts(&["y", "w"]));
    let d = diff_sets(&a, &b);
    assert_eq!(d.only_a, texts(&["x", "z"]));
    assert_eq!(d.only_b, texts(&["w"]));
    assert!(!d.is_equal());
    assert!(diff_sets(&a, &to_set(&texts(&["z", "y", "x"]))).is_equal());
}

#[test]
fn only_paths_are_dead_lines() {
    let lines = texts(&["/t/nix/store/a", "removing stale link", "/t/nix/storex", "2 store paths"]);
    assert_eq!(dead_lines(&lines, STORE), texts(&["/t/nix/store/a"]));
}

fn outcome(nix_db: &[&str], fast_db: &[&str], nix_disk: &[&str], fast_disk: &[&str]) -> Outcome {
    Outcome {
        nix_dead: to_set(&paths(&["dead", "junk"])),
        fast_dead: to_set(&paths(&["dead"])),
        nix_disk: to_set(&texts(nix_disk)),
        fast_disk: to_set(&texts(fast_disk)),
        nix_db: to_set(&paths(nix_db)),
        fast_db: to_set(&paths(fast_db)),
        valid_before: to_set(&paths(&["live", "dead", "lost"])),
    }
}

#[test]
fn agreement_ignores_what_was_damaged() {
    let fx = effects(&["junk"], &["lost"]);
    let v = compare_gc(&outcome(&["live", "lost"], &["live"], &["live"], &["live"]), &fx, STORE);
    assert!(v.is_ok());
}

#[test]
fn disagreements_are_reported() {
    let fx = effects(&["junk"], &["lost"]);
    // One keeps a dead path, the other leaves junk on disk.
    let v = compare_gc(
        &outcome(&["live", "dead"], &["live"], &["live", "dead"], &["live", "junk"]),
        &fx,
        STORE,
    );
    assert!(!v.is_ok());
    assert!(v.dead.is_equal());
    assert_eq!(v.disk.only_a, texts(&["dead"]));
    assert!(v.disk.only_b.is_empty());
    assert_eq!(v.db.only_a, paths(&["dead"]));
    assert_eq!(v.survivors.only_b, paths(&["dead"]));
    assert!(v.nix_kept.is_empty());
    assert_eq!(v.fast_kept, texts(&["junk"]));
}

fn lone(db_after: &[&str], disk_after: &[&str]) -> LoneOutcome {
    LoneOutcome {
        valid_before: to_set(&paths(&["live", "dead", "lost"])),
        dead: to_set(&paths(&["dead"])),
        db_after: to_set(&paths(db_after)),
        disk_after: to_set(&texts(disk_after)),
    }
}

#[test]
fn a_lone_collector_must_do_as_it_said() {
    let fx = effects(&["junk"], &["lost"]);
    assert!(validate_alone(&lone(&["live", "lost"], &["live"]), &fx, STORE).is_ok());
    let v = validate_alone(&lone(&["live"], &["live"]), &fx, STORE);
    assert_eq!(v.db.only_a, paths(&["lost"]));
    let v = validate_alone(&lone(&["live", "lost"], &["live", "junk"]), &fx, STORE);
    assert_eq!(v.disk.only_b, texts(&["junk"]));
    assert_eq!(v.kept, texts(&["junk"]));
    assert!(!v.is_ok());
}

#[test]
fn sizes_are_those_of_the_compared_sets() {
    let set = |items: &[&str]| to_set(&items.iter().map(|s| s.to_string()).collect::<Vec<_>>());
    let diff = diff_sets(&set(&["a", "b", "a"]), &set(&["b", "c"]));
    assert_eq!((diff.only_a, diff.only_b, diff.size_a), (vec!["a".to_owned()], vec!["c".to_owned()], 2));
    let mut fx = CorruptionEffects::new();
    fx.junk.push("x".to_owned());
    fx.deleted.push("y".to_owned());
    let left = undamaged(&set(&["/s/x", "/s/y", "/s/z", "y"]), &fx, "/s");
    assert_eq!(left.items(), ["/s/z", "y"]);
    assert_eq!(MAX_CORRUPTIONS, 3);
}
