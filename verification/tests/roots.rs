use fast_nix_gc::graph::{BasenameIndex, StoreGraph};
use fast_nix_gc::roots::{
    add_file_root, add_rebased, add_unchecked, check_candidates, extract_cstr_path,
    extract_store_path, find_roots, is_hidden, is_in_store, is_pid_name, is_stale_entry,
    is_store_path_basename, is_store_path_char, is_temp_roots_name, mapped_file, next_region,
    parse_temp_roots, rebase, scan_blob_for_store_paths, Hop, RootEntry,
};
use fast_nix_gc::text_set::TextSet;

const STORE: &str = "/nix/store";
const H1: &str = "aaaaaaaaaaaaaaaaaaaaaaaaaaaaaaaa";
const H2: &str = "bbbbbbbbbbbbbbbbbbbbbbbbbbbbbbbb";

fn path(h: &str, name: &str) -> String {
    format!("{STORE}/{h}-{name}")
}

fn graph() -> StoreGraph {
    StoreGraph::from_edges(
        vec![path(H1, "a"), path(H2, "b")],
        vec![1, 1],
        vec![1, 1],
        &[],
        format!("{STORE}/"),
    )
}

fn items(set: &TextSet) -> Vec<String> {
    set.items().to_vec()
}

fn symlink(dir: &str, target: &str, hop: Hop) -> RootEntry {
    RootEntry::Symlink {
        dir: dir.to_owned(),
        target: target.to_owned(),
        hop,
    }
}

#[test]
fn basenames_are_recognised() {
    assert!(is_store_path_basename(&format!("{H1}-a")));
    assert!(is_store_path_basename(&format!("{H1}-A+b-c._?=9")));
    assert!(!is_store_path_basename(&format!("{H1}-")));
    assert!(!is_store_path_basename(&format!("{H1}a")));
    assert!(!is_store_path_basename(".links"));
    assert!(!is_store_path_basename(".."));
    assert!(!is_store_path_basename(&format!("A{}-a", &H1[1..])));
    assert!(!is_store_path_basename(&format!("{H1}-a b")));
    // Letters beyond the base-32 alphabet are fine here.
    assert!(is_store_path_basename(&format!("{}-a", "e".repeat(32))));
    assert!(is_store_path_char('?') && !is_store_path_char('/'));
}

#[test]
fn store_paths_are_cut_out() {
    assert_eq!(
        extract_store_path(STORE, &format!("{}/bin/x", path(H1, "a"))),
        Some(path(H1, "a"))
    );
    assert_eq!(extract_store_path(STORE, &path(H1, "a")), Some(path(H1, "a")));
    assert_eq!(extract_store_path(STORE, "/nix/store/.links/x"), None);
    assert_eq!(extract_store_path(STORE, "/nix/store/../x"), None);
    assert_eq!(extract_store_path(STORE, "/nix/store"), None);
    assert!(is_in_store(STORE, "/nix/store/x"));
    assert!(!is_in_store(STORE, "/nix/store-other/x"));
    assert!(!is_in_store(STORE, "/nix/store"));
}

#[test]
fn blobs_are_scanned() {
    let mut found = TextSet::new();
    let blob = format!(
        "PATH={}/bin:{}/sbin\0X=/nix/store/nope\0Y={}",
        path(H1, "a"),
        path(H2, "b"),
        path(H1, "a")
    );
    scan_blob_for_store_paths(&blob, STORE, &mut found);
    assert_eq!(items(&found), vec![path(H1, "a"), path(H2, "b")]);
    let mut found = TextSet::new();
    scan_blob_for_store_paths("/nix/store/", STORE, &mut found);
    assert!(items(&found).is_empty());
}

#[test]
fn candidates_are_checked_against_valid_paths() {
    let g = graph();
    let idx = BasenameIndex::new(&g);
    let mut found = TextSet::new();
    add_unchecked(STORE, &format!("{}/lib/x.so", path(H2, "b")), &mut found);
    add_unchecked(STORE, &path(H1, "gone"), &mut found);
    add_unchecked(STORE, "/home/u", &mut found);
    add_file_root(STORE, &format!("  {}/bin/modprobe\n", path(H1, "a")), &mut found);
    assert_eq!(items(&found).len(), 3);
    assert_eq!(check_candidates(&found, &idx), vec![1, 0]);
}

#[test]
fn canonical_candidates_are_rebased() {
    assert_eq!(
        rebase("/mnt/store/x", "/mnt/store", STORE),
        Some("/nix/store/x".to_owned())
    );
    assert_eq!(rebase("/other/x", "/mnt/store", STORE), None);
    let mut all = TextSet::new();
    all.insert(&path(H1, "a"));
    let mut found = TextSet::new();
    found.insert(&format!("/mnt/store/{H2}-b"));
    found.insert(&format!("/mnt/store/{H1}-a"));
    add_rebased(&mut all, &found, "/mnt/store", STORE);
    assert_eq!(items(&all), vec![path(H1, "a"), path(H2, "b")]);
}

#[test]
fn entries_are_roots() {
    let g = graph();
    let idx = BasenameIndex::new(&g);
    let dir = "/state/gcroots/auto";
    let entries = vec![
        symlink(dir, &format!("{}/bin", path(H1, "a")), Hop::Unseen),
        symlink(dir, "/home/u/result", Hop::Link(path(H2, "b"))),
        symlink(dir, "/home/u/plain", Hop::Plain),
        symlink(dir, "/home/u/gone", Hop::Gone),
        symlink("/state/profiles", "/home/u/gone", Hop::Gone),
        symlink(dir, "/home/u/out", Hop::Link("/tmp/x".to_owned())),
        symlink(dir, "/nix/store/nothing", Hop::Unseen),
        RootEntry::File {
            name: format!("{H1}-a"),
        },
        RootEntry::File {
            name: "README".to_owned(),
        },
    ];
    let none = TextSet::new();
    assert_eq!(find_roots(&entries, &none, STORE, &idx), vec![0, 1, 0]);
    let stale: Vec<usize> = (0..entries.len())
        .filter(|&i| is_stale_entry(&entries[i], STORE))
        .collect();
    assert_eq!(stale, vec![3]);
}

#[test]
fn process_entries_are_recognised() {
    assert!(is_pid_name("1234") && !is_pid_name("") && !is_pid_name("self"));
    assert!(is_temp_roots_name("99999") && !is_temp_roots_name(".keep"));
    assert!(!is_temp_roots_name("12a"));
    assert!(is_hidden(".x") && !is_hidden("x") && !is_hidden(""));
    let line = "7f00-7f01 r-xp 00000000 fd:01 123   /nix/store/x/lib.so (deleted)";
    assert_eq!(mapped_file(line), Some("/nix/store/x/lib.so".to_owned()));
    assert_eq!(mapped_file("7f00-7f01 rw-p 00000000 00:00 0 [heap]"), None);
    assert_eq!(mapped_file("7f00-7f01 rw-p 00000000 00:00 0"), None);
}

#[test]
fn temp_root_files_are_read() {
    assert_eq!(
        parse_temp_roots(b"/a\0\0/b\0\xff\0/c"),
        vec!["/a".to_owned(), "/b".to_owned()]
    );
}

#[test]
fn records_hold_a_path_at_the_end() {
    let mut buf = vec![b'x'; 152];
    let mut tail = b"/nix/store/x".to_vec();
    tail.resize(1024, 0);
    buf.extend(tail);
    assert_eq!(extract_cstr_path(&buf), Some("/nix/store/x".to_owned()));
    assert_eq!(extract_cstr_path(&buf[..1000]), None);
    assert_eq!(extract_cstr_path(&[0u8; 1024]), None);
    assert_eq!(extract_cstr_path(&[b'x'; 1024]), None);
    assert_eq!(next_region(0, 8192, 10), Some(12288));
    assert_eq!(next_region(4096, 4096, 8192), Some(12288));
    assert_eq!(next_region(u64::MAX, u64::MAX, 1), None);
}
