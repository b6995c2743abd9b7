use fast_nix_gc::hash::{nar_hash_nix32, NarNode};
use fast_nix_gc::optimise::{
    dir_shard, fresh_temp_link_name, must_toggle, on_link_created, on_link_created_here,
    on_link_stat, on_replaced, on_replaced_here, on_stat_again, on_store_path, screen_file,
    shard_key, shard_of, summary, temp_link_name, walk_fault_is_fatal, wants_stat, Action, Admission,
    FileKind, FileMeta, IoFault, IoKind, LinkStat, Options, PathStep, Platform, ReplaceStep,
    Replacement, Stats, READ_ONLY_MODE, SHARDS, STORE_MTIME, WRITABLE_MODE,
};
use nix::errno::Errno;
use std::collections::BTreeMap;

const LINUX: Platform = Platform {
    can_link_symlink: true,
    guards_bundles: false,
};

const CONTENT: &[u8] = b"hello world hello world hello world\n";

/// A file of the store.
#[derive(Clone)]
struct File {
    dir: String,
    ino: u64,
    mode: u32,
    contents: Vec<u8>,
}

/// A store on a disk that never fails.
struct Disk {
    files: Vec<File>,
    links: BTreeMap<String, (u64, u64)>,
    dirs: BTreeMap<String, (u32, i64)>,
    temp_roots: Vec<String>,
}

impl Disk {
    fn new(names: &[&str]) -> Disk {
        let mut disk = Disk {
            files: Vec::new(),
            links: BTreeMap::new(),
            dirs: BTreeMap::new(),
            temp_roots: Vec::new(),
        };
        for (i, name) in names.iter().enumerate() {
            let dir = format!("/store/{name}");
            disk.files.push(File {
                dir: dir.clone(),
                ino: 100 + i as u64,
                mode: 0o100444,
                contents: CONTENT.to_vec(),
            });
            disk.dirs.insert(dir, (READ_ONLY_MODE, 77));
        }
        disk
    }

    fn stat(&self, hash: &str) -> LinkStat {
        match self.links.get(hash) {
            Some(&(ino, len)) => LinkStat::Found { ino, len },
            None => LinkStat::Missing,
        }
    }

    fn replace(&mut self, i: usize, ino: u64) {
        let dir = self.files[i].dir.clone();
        let mut r = Replacement::begin(dir.as_bytes(), b"/store");
        loop {
            match r.step {
                ReplaceStep::MakeWritable => {
                    self.dirs.insert(dir.clone(), (WRITABLE_MODE, 77));
                }
                ReplaceStep::LinkTemp | ReplaceStep::RemoveTemp => {}
                ReplaceStep::Rename => {
                    assert_eq!(self.dirs[&dir].0, WRITABLE_MODE);
                    self.files[i].ino = ino;
                }
                ReplaceStep::Restore => {
                    self.dirs.insert(dir.clone(), (READ_ONLY_MODE, STORE_MTIME));
                }
                ReplaceStep::Finish => break,
            }
            r = r.advance(true);
        }
        assert!(!r.failed);
    }

    fn optimise_file(&mut self, i: usize, opts: &Options, stats: &mut Stats) {
        let file = self.files[i].clone();
        let meta = FileMeta {
            kind: FileKind::Regular,
            mode: file.mode,
            len: file.contents.len() as u64,
            ino: file.ino,
        };
        let path = format!("{}/data", file.dir);
        match screen_file(Some(&path), &meta, opts, &LINUX, stats) {
            Admission::Hash => {}
            _ => return,
        }
        let hash = nar_hash_nix32(&NarNode::Regular {
            executable: file.mode & 0o100 != 0,
            contents: file.contents.clone(),
        });
        let mut action = on_link_stat(&meta, &hash, self.stat(&hash), opts, stats);
        loop {
            match action {
                Action::Done | Action::DoneMismatch => return,
                Action::Fail => {
                    stats.count_error();
                    return;
                }
                Action::CreateLink => {
                    self.links.insert(hash.clone(), (meta.ino, meta.len));
                    action = on_link_created_here(None, stats);
                }
                Action::StatAgain => action = on_stat_again(&meta, self.stat(&hash)),
                Action::Replace => {
                    let ino = self.links[&hash].0;
                    self.replace(i, ino);
                    action = on_replaced_here(&meta, None, stats);
                }
            }
        }
    }

    fn run(&mut self, min_size: u64, dry_run: bool) -> Stats {
        let mut opts = Options::new(Some(1));
        opts.min_size = min_size;
        opts.dry_run = dry_run;
        let mut stats = Stats::default();
        for i in 0..self.files.len() {
            let mut valid = None;
            loop {
                match on_store_path(dry_run, valid) {
                    PathStep::Register => {
                        self.temp_roots.push(self.files[i].dir.clone());
                        valid = Some(true);
                    }
                    PathStep::Walk => {
                        self.optimise_file(i, &opts, &mut stats);
                        break;
                    }
                    PathStep::Skip => break,
                }
            }
        }
        stats
    }
}

#[test]
fn dedups_identical_files() {
    let mut disk = Disk::new(&[
        "aaaaaaaaaaaaaaaaaaaaaaaaaaaaaaaa-a",
        "bbbbbbbbbbbbbbbbbbbbbbbbbbbbbbbb-b",
    ]);
    let stats = disk.run(0, false);
    // The first file becomes the canonical link (same inode, no rename), so
    // only the second one counts as linked.
    assert_eq!(stats.files_linked, 1);
    assert_eq!(
        disk.files[0].ino, disk.files[1].ino,
        "files should share an inode after optimise"
    );
    assert!(disk.links.len() == 1);
    assert_eq!(summary(&stats, false), "36 bytes freed by hard-linking 1 files");
}

fn run_two_identical(min_size: u64, dry_run: bool) -> (Stats, Disk) {
    let mut disk = Disk::new(&[
        "cccccccccccccccccccccccccccccccc-c",
        "dddddddddddddddddddddddddddddddd-d",
    ]);
    let stats = disk.run(min_size, dry_run);
    (stats, disk)
}

#[test]
fn min_size_equal_to_len_is_processed() {
    let (stats, disk) = run_two_identical(CONTENT.len() as u64, false);
    assert_eq!(stats.files_linked, 1);
    assert_eq!(stats.files_skipped, 0);
    assert_eq!(disk.files[0].ino, disk.files[1].ino);
}

#[test]
fn min_size_above_len_is_skipped() {
    let (stats, disk) = run_two_identical(CONTENT.len() as u64 + 1, false);
    assert_eq!(stats.files_linked, 0);
    assert_eq!(stats.files_skipped, 2);
    assert_ne!(disk.files[0].ino, disk.files[1].ino);
}

#[test]
fn dry_run_counts_but_does_not_link() {
    let (stats, disk) = run_two_identical(0, true);
    // The first file would become the canonical entry and frees nothing; only
    // the duplicate counts, as in a real run.
    assert_eq!(stats.files_linked, 1);
    assert_eq!(stats.bytes_freed, CONTENT.len() as u64);
    assert_ne!(disk.files[0].ino, disk.files[1].ino);
    assert!(disk.links.is_empty());
    assert_eq!(summary(&stats, true), "36 bytes would be freed by hard-linking 1 files");
}

#[test]
fn restores_parent_perms_and_mtime() {
    let mut disk = Disk::new(&[
        "kkkkkkkkkkkkkkkkkkkkkkkkkkkkkkkk-k",
        "ffffffffffffffffffffffffffffffff-f",
    ]);
    let stats = disk.run(0, false);
    assert_eq!(stats.files_linked, 1);
    // Exactly one directory had its file replaced; it must be restored to
    // mode 0555 with mtime 1.
    let restored: Vec<_> = disk.dirs.values().filter(|d| d.1 == 1).collect();
    assert_eq!(restored.len(), 1, "one parent dir restored to mtime 1");
    assert_eq!(restored[0].0, 0o555);
}

#[test]
fn corrupt_link_with_size_mismatch_is_skipped() {
    let mut disk = Disk::new(&["gggggggggggggggggggggggggggggggg-g"]);
    let hash = nar_hash_nix32(&NarNode::Regular {
        executable: false,
        contents: CONTENT.to_vec(),
    });
    // A corrupt entry under the file's hash with a different size.
    disk.links.insert(hash.clone(), (7, 10));
    let stats = disk.run(0, false);
    assert_eq!(stats.files_linked, 0);
    assert_ne!(disk.files[0].ino, disk.links[&hash].0);
}

#[test]
fn canonical_file_is_not_counted_as_linked() {
    let mut disk = Disk::new(&["hhhhhhhhhhhhhhhhhhhhhhhhhhhhhhhh-h"]);
    let stats = disk.run(0, false);
    // The sole file becomes the canonical entry (same inode); nothing is
    // replaced, so the counter must stay 0.
    assert_eq!(stats.files_linked, 0);
    assert_eq!(disk.links.len(), 1);
}

#[test]
fn writable_file_is_skipped_as_suspicious() {
    let mut disk = Disk::new(&[
        "iiiiiiiiiiiiiiiiiiiiiiiiiiiiiiii-i",
        "jjjjjjjjjjjjjjjjjjjjjjjjjjjjjjjj-j",
    ]);
    disk.files[1].mode = 0o100644;
    let stats = disk.run(0, false);
    assert_eq!(stats.files_linked, 0);
    assert_eq!(stats.files_skipped, 1);
}

#[test]
fn registers_temp_roots_for_optimised_paths() {
    let mut disk = Disk::new(&[
        "qqqqqqqqqqqqqqqqqqqqqqqqqqqqqqqq-q",
        "rrrrrrrrrrrrrrrrrrrrrrrrrrrrrrrr-r",
    ]);
    disk.run(0, false);
    let dirs: Vec<String> = disk.files.iter().map(|f| f.dir.clone()).collect();
    assert_eq!(disk.temp_roots, dirs);
}

#[test]
fn dry_run_takes_no_temp_roots() {
    let (_stats, disk) = run_two_identical(0, true);
    assert!(disk.temp_roots.is_empty(), "dry run must not write temp roots");
}

#[test]
fn collected_paths_are_skipped() {
    assert!(on_store_path(false, Some(false)) == PathStep::Skip);
    assert!(!walk_fault_is_fatal(IoKind::NotFound));
    assert!(walk_fault_is_fatal(IoKind::Other));
}

#[test]
fn rand_suffix_is_unique_per_call() {
    assert_ne!(
        fresh_temp_link_name(1, 5, 0),
        fresh_temp_link_name(1, 5, 1)
    );
}

#[test]
fn temp_links_lie_in_the_store() {
    assert_eq!(temp_link_name(42, 7), ".tmp-link-42-7");
    let name = fresh_temp_link_name(42, 1_700_000_000_000_000_000, 3);
    let suffix = name.strip_prefix(".tmp-link-42-").unwrap();
    assert!(suffix.parse::<u64>().is_ok());
}

fn fault(kind: IoKind, errno: Option<i32>) -> IoFault {
    IoFault { kind, errno }
}

#[test]
fn errno_helpers_match_libc_values() {
    let enospc = Errno::ENOSPC as i32;
    let emlink = Errno::EMLINK as i32;
    let meta = FileMeta {
        kind: FileKind::Regular,
        mode: 0o444,
        len: 1,
        ino: 1,
    };
    // A full disk is counted, other numbers are errors.
    let mut stats = Stats::default();
    let full = Some(fault(IoKind::Other, Some(enospc)));
    assert!(on_link_created_here(full, &mut stats) == Action::Done);
    assert_eq!(stats.link_enospc, 1);
    let other = Some(fault(IoKind::Other, Some(emlink)));
    assert!(on_link_created_here(other, &mut stats) == Action::Fail);
    assert_eq!(stats.link_enospc, 1);
    // Too many links are no error, a full disk is one here.
    let capped = Some(Some(fault(IoKind::Other, Some(emlink))));
    assert!(on_replaced_here(&meta, capped, &mut stats) == Action::Done);
    let full = Some(Some(fault(IoKind::Other, Some(enospc))));
    assert!(on_replaced_here(&meta, full, &mut stats) == Action::Fail);
    assert!(enospc > 1);
    assert!(emlink > 1);
    assert_ne!(enospc, emlink);
}

#[test]
fn races_and_faults_are_told_apart() {
    let meta = FileMeta {
        kind: FileKind::Regular,
        mode: 0o444,
        len: 1,
        ino: 1,
    };
    let mut stats = Stats::default();
    let lost = Some(fault(IoKind::AlreadyExists, Some(17)));
    assert!(on_link_created(lost, 28, &mut stats) == Action::StatAgain);
    let gone = Some(fault(IoKind::NotFound, Some(2)));
    assert!(on_link_created(gone, 28, &mut stats) == Action::Done);
    assert!(on_link_created(Some(fault(IoKind::Other, None)), 28, &mut stats) == Action::Fail);
    assert!(on_replaced(&meta, Some(None), 31, &mut stats) == Action::Fail);
    assert!(on_replaced(&meta, Some(gone), 31, &mut stats) == Action::Done);
    assert_eq!((stats.files_linked, stats.link_enospc), (0, 0));
    assert!(on_stat_again(&meta, LinkStat::Missing) == Action::Fail);
    assert!(on_stat_again(&meta, LinkStat::Found { ino: 2, len: 3 }) == Action::DoneMismatch);
}

#[test]
fn only_files_and_symlinks_are_shared() {
    let mut stats = Stats::default();
    let opts = Options::new(None);
    assert_eq!(opts.jobs, 4);
    let meta = |kind| FileMeta {
        kind,
        mode: 0o777,
        len: 1,
        ino: 1,
    };
    let mac = Platform {
        can_link_symlink: false,
        guards_bundles: true,
    };
    let link = meta(FileKind::Symlink);
    let other = meta(FileKind::Other);
    assert!(matches!(screen_file(Some("/s/x"), &link, &opts, &LINUX, &mut stats), Admission::Hash));
    assert!(matches!(screen_file(Some("/s/x"), &link, &opts, &mac, &mut stats), Admission::Ignore));
    assert!(matches!(
        screen_file(Some("/s/x"), &other, &opts, &LINUX, &mut stats),
        Admission::Ignore
    ));
    let bundled = FileMeta {
        kind: FileKind::Regular,
        mode: 0o444,
        len: 1,
        ino: 1,
    };
    let path = Some("/s/A.app/Contents/x");
    assert!(matches!(screen_file(path, &bundled, &opts, &mac, &mut stats), Admission::Ignore));
    assert!(matches!(screen_file(path, &bundled, &opts, &LINUX, &mut stats), Admission::Hash));
    assert!(wants_stat(FileKind::Regular, false));
    assert!(!wants_stat(FileKind::Regular, true));
    assert!(!wants_stat(FileKind::Other, false));
}

#[test]
fn directories_are_restored_whatever_fails() {
    assert!(!must_toggle(b"/store/", b"/store"));
    assert!(must_toggle(b"/store/a", b"/store"));
    // Every way the steps can succeed or fail.
    for outcomes in 0..64u32 {
        for parent in [&b"/store/a"[..], &b"/store"[..]] {
            let mut r = Replacement::begin(parent, b"/store");
            let (mut open, mut temp, mut renamed) = (false, false, false);
            let mut k = 0;
            while r.step != ReplaceStep::Finish {
                let ok = outcomes >> k & 1 == 1;
                k += 1;
                match r.step {
                    ReplaceStep::MakeWritable => open = ok,
                    ReplaceStep::LinkTemp => temp = ok,
                    ReplaceStep::Rename => {
                        renamed = ok;
                        temp = !ok;
                    }
                    ReplaceStep::RemoveTemp => temp = false,
                    ReplaceStep::Restore => open = false,
                    ReplaceStep::Finish => unreachable!(),
                }
                r = r.advance(ok);
            }
            assert!(!open && !temp);
            assert_eq!(r.failed, !renamed);
        }
    }
}

#[test]
fn directories_share_locks() {
    assert_eq!(shard_of(1000), 232);
    assert_eq!(shard_of(u64::MAX) as u64, u64::MAX % SHARDS);
    assert_eq!(dir_shard(b"/store/a"), dir_shard(b"/store//a/"));
    let shards: std::collections::BTreeSet<usize> = (0..100)
        .map(|i| dir_shard(format!("/store/{i}").as_bytes()))
        .collect();
    assert!(shards.len() > 10 && shards.iter().all(|s| *s < 256));
}

#[test]
fn shared_files_are_left_alone() {
    let meta = FileMeta {
        kind: FileKind::Regular,
        mode: 0o100444,
        len: 3,
        ino: 7,
    };
    for dry_run in [false, true] {
        for len in [3, 4] {
            let mut opts = Options::new(Some(1));
            opts.dry_run = dry_run;
            let mut stats = Stats::default();
            let shared = LinkStat::Found { ino: 7, len };
            assert!(on_link_stat(&meta, "h", shared, &opts, &mut stats) == Action::Done);
            assert_eq!(stats.files_linked, 0);
            assert_eq!(stats.bytes_freed, 0);
        }
    }
}

#[test]
fn second_run_changes_nothing() {
    let mut disk = Disk::new(&["a", "b", "c", "d"]);
    disk.files[2].contents = b"something else".to_vec();
    disk.files[3].contents = b"something else".to_vec();
    let first = disk.run(0, false);
    assert_eq!((first.files_linked, first.bytes_freed), (2, 36 + 14));
    assert_eq!(disk.files[0].ino, disk.files[1].ino);
    assert_eq!(disk.files[2].ino, disk.files[3].ino);
    assert_ne!(disk.files[0].ino, disk.files[2].ino);

    let inodes = |disk: &Disk| -> Vec<u64> { disk.files.iter().map(|f| f.ino).collect() };
    let (before, links) = (inodes(&disk), disk.links.clone());
    disk.files.reverse();
    let again = disk.run(0, false);
    disk.files.reverse();
    assert_eq!((again.files_linked, again.bytes_freed, again.errors), (0, 0, 0));
    assert_eq!(inodes(&disk), before);
    assert_eq!(disk.links, links);
}

#[test]
fn corrupt_links_leave_their_files_alone() {
    let mut disk = Disk::new(&["a", "b"]);
    let hash = nar_hash_nix32(&NarNode::Regular {
        executable: false,
        contents: CONTENT.to_vec(),
    });
    disk.links.insert(hash, (7, 1));
    for _ in 0..2 {
        let stats = disk.run(0, false);
        assert_eq!((stats.files_linked, stats.bytes_freed), (0, 0));
        assert_eq!((disk.files[0].ino, disk.files[1].ino), (100, 101));
    }
}

#[test]
fn one_key_per_directory() {
    assert_eq!(shard_key(b"/store//a/./b/"), b"/store/a/b".to_vec());
    assert_eq!(shard_key(b"/store/a/b"), b"/store/a/b".to_vec());
    assert_eq!(shard_key(b"store/a"), b"store/a".to_vec());
    assert_eq!(shard_key(b"/"), b"/".to_vec());
}
