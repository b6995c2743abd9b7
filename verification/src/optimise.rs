//! Hardlink-based sharing of equal files: what to do with each file.
use crate::numbers;
use crate::paths;
use crate::roots;
use crate::size;
use crate::text;
use vstd::hash_set::StringHashSet;
use vstd::prelude::*;
use std::hash::BuildHasher;
use std::hash::Hasher;

verus! {

/// Settings of a run.
pub struct Options {
    pub store_dir: String,
    pub state_dir: String,
    pub dry_run: bool,
    /// Skip files below this size; the extra link costs more.
    pub min_size: u64,
    pub jobs: usize,
}

impl Options {
    /// The settings without arguments. `parallelism` is what the machine
    /// offers, if that is known.
    pub fn new(parallelism: Option<usize>) -> (r: Options)
        ensures
            r.store_dir@ == "/nix/store"@,
            r.state_dir@ == "/nix/var/nix"@,
            !r.dry_run,
            r.min_size == 0,
            r.jobs == match parallelism {
                Some(n) => n,
                None => 4,
            },
    {
        let jobs: usize = match parallelism {
            Some(n) => n,
            None => 4,
        };
        Options {
            store_dir: "/nix/store".to_owned(),
            state_dir: "/nix/var/nix".to_owned(),
            dry_run: false,
            min_size: 0,
            jobs,
        }
    }
}

/// What a run has done so far.
#[verifier::ext_equal]
pub struct StatsView {
    pub files_linked: u64,
    pub bytes_freed: u64,
    pub files_skipped: u64,
    pub link_enospc: u64,
    pub errors: u64,
    pub dry_run_links: Set<Seq<char>>,
}

impl StatsView {
    /// One more file was linked, which frees `len` bytes.
    pub open spec fn linked(self, len: u64) -> StatsView {
        StatsView {
            files_linked: self.files_linked.wrapping_add(1),
            bytes_freed: self.bytes_freed.wrapping_add(len),
            ..self
        }
    }

    /// One more file was skipped.
    pub open spec fn skipped(self) -> StatsView {
        StatsView { files_skipped: self.files_skipped.wrapping_add(1), ..self }
    }

    /// One more link could not be made for want of space.
    pub open spec fn out_of_space(self) -> StatsView {
        StatsView { link_enospc: self.link_enospc.wrapping_add(1), ..self }
    }

    /// One more file or path was left because of an error.
    pub open spec fn failed(self) -> StatsView {
        StatsView { errors: self.errors.wrapping_add(1), ..self }
    }

    /// A dry run met a file with this hash that has no link yet: the first one
    /// would become the link and free nothing, the others count.
    pub open spec fn would_link(self, hash: Seq<char>, len: u64) -> StatsView {
        if self.dry_run_links.contains(hash) {
            self.linked(len)
        } else {
            StatsView { dry_run_links: self.dry_run_links.insert(hash), ..self }
        }
    }
}

/// Counters of a run.
pub struct Stats {
    pub files_linked: u64,
    pub bytes_freed: u64,
    pub files_skipped: u64,
    pub link_enospc: u64,
    /// Files or paths skipped because of I/O errors (logged, not fatal).
    pub errors: u64,
    /// Dry run only: hashes whose link would be made by this run.
    dry_run_links: StringHashSet,
}

impl View for Stats {
    type V = StatsView;

    closed spec fn view(&self) -> StatsView {
        StatsView {
            files_linked: self.files_linked,
            bytes_freed: self.bytes_freed,
            files_skipped: self.files_skipped,
            link_enospc: self.link_enospc,
            errors: self.errors,
            dry_run_links: self.dry_run_links@,
        }
    }
}

impl Default for Stats {
    fn default() -> (r: Stats)
        ensures
            r@ == (StatsView {
                files_linked: 0,
                bytes_freed: 0,
                files_skipped: 0,
                link_enospc: 0,
                errors: 0,
                dry_run_links: Set::empty(),
            }),
    {
        Stats {
            files_linked: 0,
            bytes_freed: 0,
            files_skipped: 0,
            link_enospc: 0,
            errors: 0,
            dry_run_links: StringHashSet::new(),
        }
    }
}

impl Stats {
    /// One more file was linked, which frees `len` bytes.
    pub fn count_linked(&mut self, len: u64)
        ensures
            final(self)@ == old(self)@.linked(len),
    {
        self.files_linked = self.files_linked.wrapping_add(1);
        self.bytes_freed = self.bytes_freed.wrapping_add(len);
    }

    /// One more file was skipped.
    pub fn count_skipped(&mut self)
        ensures
            final(self)@ == old(self)@.skipped(),
    {
        self.files_skipped = self.files_skipped.wrapping_add(1);
    }

    /// One more link could not be made for want of space.
    pub fn count_out_of_space(&mut self)
        ensures
            final(self)@ == old(self)@.out_of_space(),
    {
        self.link_enospc = self.link_enospc.wrapping_add(1);
    }

    /// One more file or path was left because of an error.
    pub fn count_error(&mut self)
        ensures
            final(self)@ == old(self)@.failed(),
    {
        self.errors = self.errors.wrapping_add(1);
    }

    /// A dry run met a file with this hash that has no link yet.
    pub fn count_would_link(&mut self, hash: &str, len: u64)
        ensures
            final(self)@ == old(self)@.would_link(hash@, len),
    {
        let ghost seen = self.dry_run_links@;
        let first = self.dry_run_links.insert(hash.to_owned());
        if !first {
            assert(seen.insert(hash@) =~= seen);
            self.count_linked(len);
        }
    }
}

/// The kinds of directory entries that matter here.
#[derive(Clone, Copy, PartialEq, Eq, Structural)]
pub enum FileKind {
    Regular,
    Symlink,
    Other,
}

/// What is known of a file before its contents are read.
#[derive(Clone, Copy)]
pub struct FileMeta {
    pub kind: FileKind,
    pub mode: u32,
    pub len: u64,
    pub ino: u64,
}

/// Peculiarities of the machine.
#[derive(Clone, Copy)]
pub struct Platform {
    /// Symlinks can be hard-linked themselves.
    pub can_link_symlink: bool,
    /// Files inside application bundles cannot be hard-linked.
    pub guards_bundles: bool,
}

/// Whether a file is worth hashing.
#[derive(Clone, Copy, PartialEq, Eq, Structural)]
pub enum Admission {
    /// Not a file that can be linked.
    Ignore,
    /// A writable file in the store is suspect.
    SkipWritable,
    /// Too small.
    SkipSmall,
    /// Hash it.
    Hash,
}

/// The owner may write to the file.
pub open spec fn is_writable(mode: u32) -> bool {
    (mode / 128) % 2 == 1
}

/// Whether a file is worth hashing.
pub open spec fn admission(
    path: Option<Seq<char>>,
    meta: FileMeta,
    min_size: u64,
    platform: Platform,
) -> Admission {
    if !(meta.kind == FileKind::Regular || (meta.kind == FileKind::Symlink
        && platform.can_link_symlink)) {
        Admission::Ignore
    } else if platform.guards_bundles && path is Some && text::has_text(
        path->0,
        ".app/Contents/"@,
    ) {
        Admission::Ignore
    } else if meta.kind == FileKind::Regular && is_writable(meta.mode) {
        Admission::SkipWritable
    } else if meta.len < min_size {
        Admission::SkipSmall
    } else {
        Admission::Hash
    }
}

/// Decide whether a file is worth hashing, and count it if it is skipped.
/// `path` is its path where that is text.
pub fn screen_file(
    path: Option<&str>,
    meta: &FileMeta,
    opts: &Options,
    platform: &Platform,
    stats: &mut Stats,
) -> (r: Admission)
    ensures
        r == admission(
            match path {
                Some(p) => Some(p@),
                None => None,
            },
            *meta,
            opts.min_size,
            *platform,
        ),
        final(stats)@ == match r {
            Admission::SkipWritable => old(stats)@.skipped(),
            Admission::SkipSmall => old(stats)@.skipped(),
            _ => old(stats)@,
        },
{
    let linkable = meta.kind == FileKind::Regular || (meta.kind == FileKind::Symlink
        && platform.can_link_symlink);
    if !linkable {
        return Admission::Ignore;
    }
    if platform.guards_bundles {
        if let Some(p) = path {
            if text::contains_text(p, ".app/Contents/") {
                return Admission::Ignore;
            }
        }
    }
    if meta.kind == FileKind::Regular && (meta.mode / 128) % 2 == 1 {
        stats.count_skipped();
        return Admission::SkipWritable;
    }
    if meta.len < opts.min_size {
        stats.count_skipped();
        return Admission::SkipSmall;
    }
    Admission::Hash
}

/// The owner's write bit alone makes a file writable: neither the bits to read
/// and to execute nor those of others matter.
pub proof fn law_owner_write_bit_decides(mode: u32)
    ensures
        is_writable(mode) <==> mode & 0o200 != 0,
{
    assert((mode / 128) % 2 == 1 <==> mode & 0o200 != 0) by (bit_vector);
}

/// Outside of guarded bundles, a regular file without the owner's write bit is
/// hashed exactly if it is of the least size or larger, and one with that bit is
/// suspect whatever its size. A symlink is hashed by its size alone where it can
/// be linked, and nothing else is hashed.
pub proof fn law_read_only_files_are_hashed(
    path: Option<Seq<char>>,
    meta: FileMeta,
    min_size: u64,
    platform: Platform,
)
    requires
        !platform.guards_bundles || path is None || forall|before: Seq<char>, after: Seq<char>|
            path->0 != #[trigger] (before + ".app/Contents/"@ + after),
    ensures
        meta.kind == FileKind::Regular && meta.mode & 0o200 == 0 && meta.len >= min_size
            ==> admission(path, meta, min_size, platform) == Admission::Hash,
        meta.kind == FileKind::Regular && meta.mode & 0o200 == 0 && meta.len < min_size
            ==> admission(path, meta, min_size, platform) == Admission::SkipSmall,
        meta.kind == FileKind::Regular && meta.mode & 0o200 != 0 ==> admission(
            path,
            meta,
            min_size,
            platform,
        ) == Admission::SkipWritable,
        meta.kind == FileKind::Symlink && platform.can_link_symlink && meta.len >= min_size
            ==> admission(path, meta, min_size, platform) == Admission::Hash,
        meta.kind == FileKind::Symlink && platform.can_link_symlink && meta.len < min_size
            ==> admission(path, meta, min_size, platform) == Admission::SkipSmall,
        meta.kind == FileKind::Symlink && !platform.can_link_symlink ==> admission(
            path,
            meta,
            min_size,
            platform,
        ) == Admission::Ignore,
        meta.kind == FileKind::Other ==> admission(path, meta, min_size, platform)
            == Admission::Ignore,
{
    law_owner_write_bit_decides(meta.mode);
    if platform.guards_bundles && path is Some {
        let p = path->0;
        let needle = ".app/Contents/"@;
        assert(!text::has_text(p, needle)) by {
            if text::has_text(p, needle) {
                let at = choose|at: int| text::occurs_at(p, needle, at);
                let before = p.take(at);
                let after = p.skip(at + needle.len());
                let whole = before + needle + after;
                assert forall|i: int| 0 <= i < p.len() implies p[i] == whole[i] by {
                    if at <= i < at + needle.len() {
                        assert(p.subrange(at, at + needle.len())[i - at] == needle[i - at]);
                    }
                }
                assert(p =~= whole);
            }
        }
    }
}

/// Where bundles are guarded, nothing in one is hashed.
pub proof fn law_bundles_are_left_alone(
    before: Seq<char>,
    after: Seq<char>,
    meta: FileMeta,
    min_size: u64,
    platform: Platform,
)
    requires
        platform.guards_bundles,
    ensures
        admission(Some(before + ".app/Contents/"@ + after), meta, min_size, platform)
            == Admission::Ignore,
{
    let needle = ".app/Contents/"@;
    let p = before + needle + after;
    let at = before.len() as int;
    assert(p.subrange(at, at + needle.len()) =~= needle);
    assert(text::occurs_at(p, needle, at));
}

/// Two files of one kind and size, neither or both of which their owners may
/// write to, fare alike, and a file that is admitted is still admitted when the
/// least size is lowered.
pub proof fn law_alike_files_fare_alike(
    path: Option<Seq<char>>,
    a: FileMeta,
    b: FileMeta,
    min_size: u64,
    lower: u64,
    platform: Platform,
)
    requires
        a.kind == b.kind,
        a.len == b.len,
        a.mode & 0o200 == b.mode & 0o200,
        lower <= min_size,
    ensures
        admission(path, a, min_size, platform) == admission(path, b, min_size, platform),
        admission(path, a, min_size, platform) == Admission::Hash ==> admission(
            path,
            a,
            lower,
            platform,
        ) == Admission::Hash,
{
    law_owner_write_bit_decides(a.mode);
    law_owner_write_bit_decides(b.mode);
}

/// Each counter moves by one, the bytes by the size of the file, and nothing
/// else moves. Of the files with one new hash, a dry run counts all but the
/// first.
pub proof fn law_counters_move_alone(s: StatsView, hash: Seq<char>, len: u64)
    ensures
        s.files_linked < u64::MAX ==> s.linked(len).files_linked == s.files_linked + 1,
        s.bytes_freed + len <= u64::MAX ==> s.linked(len).bytes_freed == s.bytes_freed + len,
        s.linked(len).files_skipped == s.files_skipped,
        s.linked(len).link_enospc == s.link_enospc,
        s.linked(len).errors == s.errors,
        s.linked(len).dry_run_links == s.dry_run_links,
        s.files_skipped < u64::MAX ==> s.skipped().files_skipped == s.files_skipped + 1,
        s.skipped().files_linked == s.files_linked && s.skipped().bytes_freed == s.bytes_freed,
        s.skipped().errors == s.errors && s.skipped().link_enospc == s.link_enospc,
        s.link_enospc < u64::MAX ==> s.out_of_space().link_enospc == s.link_enospc + 1,
        s.out_of_space().files_linked == s.files_linked && s.out_of_space().bytes_freed
            == s.bytes_freed,
        s.out_of_space().errors == s.errors && s.out_of_space().files_skipped == s.files_skipped,
        s.errors < u64::MAX ==> s.failed().errors == s.errors + 1,
        s.failed().files_linked == s.files_linked && s.failed().bytes_freed == s.bytes_freed,
        s.failed().files_skipped == s.files_skipped && s.failed().link_enospc == s.link_enospc,
        !s.dry_run_links.contains(hash) ==> {
            &&& s.would_link(hash, len).files_linked == s.files_linked
            &&& s.would_link(hash, len).bytes_freed == s.bytes_freed
        },
        s.files_linked < u64::MAX ==> s.would_link(hash, len).would_link(hash, len).files_linked
            == s.would_link(hash, len).files_linked.wrapping_add(1),
        s.would_link(hash, len).dry_run_links == s.dry_run_links.insert(hash),
        s.would_link(hash, len).files_skipped == s.files_skipped,
        s.would_link(hash, len).link_enospc == s.link_enospc,
        s.would_link(hash, len).errors == s.errors,
        s.dry_run_links.contains(hash) ==> s.would_link(hash, len) == s.linked(len),
        s.skipped().dry_run_links == s.dry_run_links,
        s.out_of_space().dry_run_links == s.dry_run_links,
        s.failed().dry_run_links == s.dry_run_links,
{
    assert(s.dry_run_links.contains(hash) ==> s.dry_run_links.insert(hash) =~= s.dry_run_links);
}

/// What the look at the link of a file's hash gave.
#[derive(Clone, Copy)]
pub enum LinkStat {
    Found { ino: u64, len: u64 },
    Missing,
    Failed,
}

/// What to do next with a file.
#[derive(Clone, Copy, PartialEq, Eq, Structural)]
pub enum Action {
    /// Nothing is left to do.
    Done,
    /// The link has another size than the file: it is corrupt. Leave the file.
    DoneMismatch,
    /// Make the file itself the link, then look at the link again.
    CreateLink,
    /// Look at the link again.
    StatAgain,
    /// Replace the file by the link.
    Replace,
    /// Report an error for this file.
    Fail,
}

/// What to do once the link of a file's hash has been looked at.
pub open spec fn after_stat(meta: FileMeta, dry_run: bool, stat: LinkStat) -> Action {
    match stat {
        LinkStat::Failed => Action::Fail,
        LinkStat::Missing => if dry_run {
            Action::Done
        } else {
            Action::CreateLink
        },
        LinkStat::Found { ino, len } => if ino == meta.ino {
            Action::Done
        } else if len != meta.len {
            Action::DoneMismatch
        } else if dry_run {
            Action::Done
        } else {
            Action::Replace
        },
    }
}

/// The counters once the link of a file's hash has been looked at: only a dry
/// run counts here.
pub open spec fn stats_after_stat(
    s: StatsView,
    meta: FileMeta,
    hash: Seq<char>,
    dry_run: bool,
    stat: LinkStat,
) -> StatsView {
    if !dry_run {
        s
    } else {
        match stat {
            LinkStat::Failed => s,
            LinkStat::Missing => s.would_link(hash, meta.len),
            LinkStat::Found { ino, len } => if ino != meta.ino && len == meta.len {
                s.linked(meta.len)
            } else {
                s
            },
        }
    }
}

/// Decide what to do with a file once the link of its hash was looked at.
pub fn on_link_stat(
    meta: &FileMeta,
    hash: &str,
    stat: LinkStat,
    opts: &Options,
    stats: &mut Stats,
) -> (r: Action)
    ensures
        r == after_stat(*meta, opts.dry_run, stat),
        final(stats)@ == stats_after_stat(old(stats)@, *meta, hash@, opts.dry_run, stat),
{
    match stat {
        LinkStat::Failed => Action::Fail,
        LinkStat::Missing => {
            if opts.dry_run {
                stats.count_would_link(hash, meta.len);
                Action::Done
            } else {
                Action::CreateLink
            }
        },
        LinkStat::Found { ino, len } => {
            if ino == meta.ino {
                return Action::Done;
            }
            if len != meta.len {
                return Action::DoneMismatch;
            }
            if opts.dry_run {
                stats.count_linked(meta.len);
                return Action::Done;
            }
            Action::Replace
        },
    }
}

/// Kinds of I/O errors that matter here.
#[derive(Clone, Copy, PartialEq, Eq, Structural)]
pub enum IoKind {
    NotFound,
    AlreadyExists,
    Other,
}

/// An I/O error: its kind, and its number where it has one.
#[derive(Clone, Copy)]
pub struct IoFault {
    pub kind: IoKind,
    pub errno: Option<i32>,
}

/// What to do after the attempt to make a file the link of its hash. Another
/// worker may have won the race; a full disk or directory is not fatal; a file
/// that is gone was collected.
pub open spec fn after_create(fault: Option<IoFault>, enospc: i32) -> Action {
    match fault {
        None => Action::StatAgain,
        Some(f) => if f.kind == IoKind::AlreadyExists {
            Action::StatAgain
        } else if f.errno == Some(enospc) || f.kind == IoKind::NotFound {
            Action::Done
        } else {
            Action::Fail
        },
    }
}

/// The counts after the attempt to make a file the link of its hash.
pub open spec fn stats_after_create(
    s: StatsView,
    fault: Option<IoFault>,
    enospc: i32,
) -> StatsView {
    if fault is Some && fault->0.kind != IoKind::AlreadyExists && fault->0.errno == Some(enospc) {
        s.out_of_space()
    } else {
        s
    }
}

/// The number of `nix::errno::Errno::ENOSPC`. It differs between systems, so
/// nothing is claimed of it.
#[verifier::external_body]
fn libc_enospc() -> (r: i32) {
    nix::errno::Errno::ENOSPC as i32
}

/// The number of `nix::errno::Errno::EMLINK`. It differs between systems, so
/// nothing is claimed of it.
#[verifier::external_body]
fn libc_emlink() -> (r: i32) {
    nix::errno::Errno::EMLINK as i32
}

/// `n` is what this system gives as the number of the error for a full disk.
pub closed spec fn is_enospc(n: i32) -> bool {
    call_ensures(libc_enospc, (), n)
}

/// `n` is what this system gives as the number of the error for too many links.
pub closed spec fn is_emlink(n: i32) -> bool {
    call_ensures(libc_emlink, (), n)
}

/// Decide what to do after the attempt to make a file the link of its hash, by
/// this system's error numbers.
pub fn on_link_created_here(fault: Option<IoFault>, stats: &mut Stats) -> (r: Action)
    ensures
        exists|enospc: i32| #[trigger]
            is_enospc(enospc) && r == after_create(fault, enospc) && final(stats)@
                == stats_after_create(old(stats)@, fault, enospc),
{
    let enospc: i32 = libc_enospc();
    assert(is_enospc(enospc));
    on_link_created(fault, enospc, stats)
}

/// Decide what to do after the attempt to replace a file by the link, by this
/// system's error numbers, and count it if it succeeded.
pub fn on_replaced_here(meta: &FileMeta, fault: Option<Option<IoFault>>, stats: &mut Stats) -> (r:
    Action)
    ensures
        exists|emlink: i32| #[trigger] is_emlink(emlink) && r == after_replace(fault, emlink),
        final(stats)@ == if fault is None {
            old(stats)@.linked(meta.len)
        } else {
            old(stats)@
        },
{
    let emlink: i32 = libc_emlink();
    assert(is_emlink(emlink));
    on_replaced(meta, fault, emlink, stats)
}

/// Decide what to do after the attempt to make a file the link of its hash.
/// `enospc` is the number of the error for a full disk.
pub fn on_link_created(fault: Option<IoFault>, enospc: i32, stats: &mut Stats) -> (r: Action)
    ensures
        r == after_create(fault, enospc),
        final(stats)@ == stats_after_create(old(stats)@, fault, enospc),
{
    match fault {
        None => Action::StatAgain,
        Some(f) => {
            if f.kind == IoKind::AlreadyExists {
                return Action::StatAgain;
            }
            let full = match f.errno {
                Some(n) => n == enospc,
                None => false,
            };
            if full {
                stats.count_out_of_space();
                return Action::Done;
            }
            if f.kind == IoKind::NotFound {
                return Action::Done;
            }
            Action::Fail
        },
    }
}

/// What to do once the link was looked at again: it must exist now.
pub fn on_stat_again(meta: &FileMeta, stat: LinkStat) -> (r: Action)
    ensures
        r == match stat {
            LinkStat::Found { .. } => after_stat(*meta, false, stat),
            _ => Action::Fail,
        },
        r == Action::Replace <==> stat is Found && stat->ino != meta.ino && stat->len == meta.len,
        r == Action::Fail <==> !(stat is Found),
{
    match stat {
        LinkStat::Found { ino, len } => {
            if ino == meta.ino {
                Action::Done
            } else if len != meta.len {
                Action::DoneMismatch
            } else {
                Action::Replace
            }
        },
        _ => Action::Fail,
    }
}

/// What to do after the attempt to replace a file by the link. `fault` is
/// `Some(None)` for an error that is not an I/O error. A link that can have no
/// more names, and a file or directory that is gone, are not errors.
pub open spec fn after_replace(fault: Option<Option<IoFault>>, emlink: i32) -> Action {
    match fault {
        None => Action::Done,
        Some(None) => Action::Fail,
        Some(Some(f)) => if f.errno == Some(emlink) || f.kind == IoKind::NotFound {
            Action::Done
        } else {
            Action::Fail
        },
    }
}

/// Decide what to do after the attempt to replace a file by the link, and
/// count it if it succeeded. `emlink` is the number of the error for too many
/// links.
pub fn on_replaced(
    meta: &FileMeta,
    fault: Option<Option<IoFault>>,
    emlink: i32,
    stats: &mut Stats,
) -> (r: Action)
    ensures
        r == after_replace(fault, emlink),
        final(stats)@ == if fault is None {
            old(stats)@.linked(meta.len)
        } else {
            old(stats)@
        },
{
    match fault {
        None => {
            stats.count_linked(meta.len);
            Action::Done
        },
        Some(None) => Action::Fail,
        Some(Some(f)) => {
            let capped = match f.errno {
                Some(n) => n == emlink,
                None => false,
            };
            if capped || f.kind == IoKind::NotFound {
                Action::Done
            } else {
                Action::Fail
            }
        },
    }
}

/// A file that was admitted and hashed.
pub struct HashedFile {
    pub meta: FileMeta,
    pub hash: Seq<char>,
}

/// What a look at the link of `hash` gives.
pub open spec fn stat_in(links: Map<Seq<char>, (u64, u64)>, hash: Seq<char>) -> LinkStat {
    if links.contains_key(hash) {
        LinkStat::Found { ino: links[hash].0, len: links[hash].1 }
    } else {
        LinkStat::Missing
    }
}

/// Counters and links (inode and size by hash) after a run over `files` in
/// which every operation succeeds.
pub open spec fn real_run(
    s: StatsView,
    links: Map<Seq<char>, (u64, u64)>,
    files: Seq<HashedFile>,
) -> (StatsView, Map<Seq<char>, (u64, u64)>)
    decreases files.len(),
{
    if files.len() == 0 {
        (s, links)
    } else {
        let (t, now) = real_run(s, links, files.drop_last());
        let f = files.last();
        match after_stat(f.meta, false, stat_in(now, f.hash)) {
            Action::CreateLink => (t, now.insert(f.hash, (f.meta.ino, f.meta.len))),
            Action::Replace => (t.linked(f.meta.len), now),
            _ => (t, now),
        }
    }
}

/// Counters after a dry run over `files`, which changes no link.
pub open spec fn dry_run(
    s: StatsView,
    links: Map<Seq<char>, (u64, u64)>,
    files: Seq<HashedFile>,
) -> StatsView
    decreases files.len(),
{
    if files.len() == 0 {
        s
    } else {
        let t = dry_run(s, links, files.drop_last());
        let f = files.last();
        stats_after_stat(t, f.meta, f.hash, true, stat_in(links, f.hash))
    }
}

/// The inodes of `files` after a run over them in which every operation
/// succeeds: a file that is replaced has the inode of the link.
pub open spec fn inodes_after(
    s: StatsView,
    links: Map<Seq<char>, (u64, u64)>,
    files: Seq<HashedFile>,
) -> Seq<u64>
    decreases files.len(),
{
    if files.len() == 0 {
        Seq::empty()
    } else {
        let now = real_run(s, links, files.drop_last()).1;
        let f = files.last();
        inodes_after(s, links, files.drop_last()).push(
            if after_stat(f.meta, false, stat_in(now, f.hash)) == Action::Replace {
                now[f.hash].0
            } else {
                f.meta.ino
            },
        )
    }
}

/// A link that exists stays as it is.
proof fn lemma_links_stay(
    s: StatsView,
    links: Map<Seq<char>, (u64, u64)>,
    files: Seq<HashedFile>,
    i: int,
    hash: Seq<char>,
)
    requires
        0 <= i <= files.len(),
        real_run(s, links, files.take(i)).1.contains_key(hash),
    ensures
        real_run(s, links, files).1.contains_key(hash),
        real_run(s, links, files).1[hash] == real_run(s, links, files.take(i)).1[hash],
    decreases files.len(),
{
    if i == files.len() {
        assert(files.take(i) =~= files);
    } else {
        assert(files.drop_last().take(i) =~= files.take(i));
        lemma_links_stay(s, links, files.drop_last(), i, hash);
    }
}

/// The inode of a file after a run is decided when its turn comes.
proof fn lemma_inode_after(
    s: StatsView,
    links: Map<Seq<char>, (u64, u64)>,
    files: Seq<HashedFile>,
    i: int,
)
    requires
        0 <= i < files.len(),
    ensures
        inodes_after(s, links, files).len() == files.len(),
        inodes_after(s, links, files)[i] == inodes_after(s, links, files.take(i + 1))[i],
    decreases files.len(),
{
    lemma_inodes_len(s, links, files);
    if i == files.len() - 1 {
        assert(files.take(i + 1) =~= files);
    } else {
        assert(files.drop_last().take(i + 1) =~= files.take(i + 1));
        lemma_inode_after(s, links, files.drop_last(), i);
    }
}

proof fn lemma_inodes_len(
    s: StatsView,
    links: Map<Seq<char>, (u64, u64)>,
    files: Seq<HashedFile>,
)
    ensures
        inodes_after(s, links, files).len() == files.len(),
    decreases files.len(),
{
    if files.len() > 0 {
        lemma_inodes_len(s, links, files.drop_last());
    }
}

/// After a run in which nothing fails, the hash of every file has a link, and
/// the file is that link, unless the link has another size and is corrupt.
pub proof fn law_files_become_their_links(
    s: StatsView,
    links: Map<Seq<char>, (u64, u64)>,
    files: Seq<HashedFile>,
    i: int,
)
    requires
        0 <= i < files.len(),
    ensures
        ({
            let now = real_run(s, links, files).1;
            let f = files[i];
            &&& inodes_after(s, links, files).len() == files.len()
            &&& now.contains_key(f.hash)
            &&& now[f.hash].1 == f.meta.len ==> inodes_after(s, links, files)[i] == now[f.hash].0
            &&& now[f.hash].1 != f.meta.len ==> inodes_after(s, links, files)[i] == f.meta.ino
        }),
{
    let upto = files.take(i + 1);
    assert(upto.drop_last() =~= files.take(i));
    assert(upto.last() == files[i]);
    lemma_inodes_len(s, links, files.take(i));
    lemma_inode_after(s, links, files, i);
    lemma_links_stay(s, links, files, i + 1, files[i].hash);
}

/// After a run in which nothing fails, files with equal hashes share one inode,
/// as long as the link of their hash is of their size.
pub proof fn law_equal_files_share_an_inode(
    s: StatsView,
    links: Map<Seq<char>, (u64, u64)>,
    files: Seq<HashedFile>,
    i: int,
    j: int,
)
    requires
        0 <= i < files.len(),
        0 <= j < files.len(),
        files[i].hash == files[j].hash,
        real_run(s, links, files).1[files[i].hash].1 == files[i].meta.len,
        real_run(s, links, files).1[files[j].hash].1 == files[j].meta.len,
    ensures
        inodes_after(s, links, files)[i] == inodes_after(s, links, files)[j],
{
    law_files_become_their_links(s, links, files, i);
    law_files_become_their_links(s, links, files, j);
}

/// `f` is one of `files` as a run over them has left it.
pub open spec fn is_left_by(
    s: StatsView,
    links: Map<Seq<char>, (u64, u64)>,
    files: Seq<HashedFile>,
    f: HashedFile,
) -> bool {
    exists|i: int|
        0 <= i < files.len() && f.hash == (#[trigger] files[i]).hash && f.meta.len
            == files[i].meta.len && f.meta.ino == inodes_after(s, links, files)[i]
}

/// A second run changes nothing: over the files that a run has left, whichever
/// of them it meets and in whatever order, it links no file, frees nothing, and
/// leaves the counters, the links and the inodes as they are.
pub proof fn law_second_run_changes_nothing(
    s: StatsView,
    links: Map<Seq<char>, (u64, u64)>,
    files: Seq<HashedFile>,
    t: StatsView,
    again: Seq<HashedFile>,
)
    requires
        forall|k: int| 0 <= k < again.len() ==> is_left_by(s, links, files, #[trigger] again[k]),
    ensures
        ({
            let now = real_run(s, links, files).1;
            &&& real_run(t, now, again) == (t, now)
            &&& inodes_after(t, now, again) == again.map_values(|f: HashedFile| f.meta.ino)
        }),
    decreases again.len(),
{
    let now = real_run(s, links, files).1;
    let inodes = again.map_values(|f: HashedFile| f.meta.ino);
    if again.len() == 0 {
        assert(inodes_after(t, now, again) =~= inodes);
    } else {
        let init = again.drop_last();
        let f = again.last();
        assert forall|k: int| 0 <= k < init.len() implies is_left_by(
            s,
            links,
            files,
            #[trigger] init[k],
        ) by {
            assert(init[k] == again[k]);
        }
        law_second_run_changes_nothing(s, links, files, t, init);
        assert(is_left_by(s, links, files, again[again.len() - 1]));
        let i = choose|i: int|
            0 <= i < files.len() && f.hash == (#[trigger] files[i]).hash && f.meta.len
                == files[i].meta.len && f.meta.ino == inodes_after(s, links, files)[i];
        law_files_become_their_links(s, links, files, i);
        assert(inodes =~= init.map_values(|f: HashedFile| f.meta.ino).push(f.meta.ino));
    }
}

/// A file in the store, before anything is decided about it. `path` is its path
/// where that is text.
pub struct StoreFile {
    pub path: Option<Seq<char>>,
    pub meta: FileMeta,
    pub hash: Seq<char>,
}

/// The files of the store that are hashed: those that are not shared under a
/// link already, by the inodes known when the run begins, and that are worth it.
pub open spec fn admitted(
    store: Seq<StoreFile>,
    known: Set<u64>,
    min_size: u64,
    platform: Platform,
) -> Seq<HashedFile>
    decreases store.len(),
{
    if store.len() == 0 {
        Seq::empty()
    } else {
        let rest = admitted(store.drop_last(), known, min_size, platform);
        let f = store.last();
        if !known.contains(f.meta.ino) && admission(f.path, f.meta, min_size, platform)
            == Admission::Hash {
            rest.push(HashedFile { meta: f.meta, hash: f.hash })
        } else {
            rest
        }
    }
}

/// A regular file that its owner may not write to, of at least the least size,
/// and outside of bundles where those are guarded.
pub open spec fn is_shareable(f: StoreFile, min_size: u64, platform: Platform) -> bool {
    &&& f.meta.kind == FileKind::Regular
    &&& !is_writable(f.meta.mode)
    &&& f.meta.len >= min_size
    &&& !(platform.guards_bundles && f.path is Some && text::has_text(f.path->0, ".app/Contents/"@))
}

/// Every shareable file whose inode is not known yet is hashed.
pub proof fn law_shareable_files_are_hashed(
    store: Seq<StoreFile>,
    known: Set<u64>,
    min_size: u64,
    platform: Platform,
    i: int,
)
    requires
        0 <= i < store.len(),
        is_shareable(store[i], min_size, platform),
        !known.contains(store[i].meta.ino),
    ensures
        admitted(store, known, min_size, platform).contains(
            HashedFile { meta: store[i].meta, hash: store[i].hash },
        ),
    decreases store.len(),
{
    let rest = admitted(store.drop_last(), known, min_size, platform);
    let all = admitted(store, known, min_size, platform);
    let file = HashedFile { meta: store[i].meta, hash: store[i].hash };
    if i == store.len() - 1 {
        assert(all[all.len() - 1] == file);
    } else {
        law_shareable_files_are_hashed(store.drop_last(), known, min_size, platform, i);
        let k = choose|k: int| 0 <= k < rest.len() && rest[k] == file;
        assert(all[k] == file);
    }
}

/// The file at `i` is the first with its hash.
pub open spec fn is_first_of_hash(files: Seq<HashedFile>, i: int) -> bool {
    forall|k: int| 0 <= k < i ==> (#[trigger] files[k]).hash != files[i].hash
}

/// After a run in which nothing fails, a shareable file of the store is the link
/// of its hash, as long as that is of its size: one that was hashed has its inode
/// now, and one whose inode was known as that of the link had it before. So any
/// two such files with equal hashes share one inode.
pub proof fn law_shareable_files_become_their_links(
    s: StatsView,
    links: Map<Seq<char>, (u64, u64)>,
    store: Seq<StoreFile>,
    known: Set<u64>,
    min_size: u64,
    platform: Platform,
    i: int,
)
    requires
        0 <= i < store.len(),
        is_shareable(store[i], min_size, platform),
        known.contains(store[i].meta.ino) ==> links.contains_key(store[i].hash)
            && links[store[i].hash].0 == store[i].meta.ino,
        ({
            let files = admitted(store, known, min_size, platform);
            real_run(s, links, files).1[store[i].hash].1 == store[i].meta.len
        }),
    ensures
        ({
            let files = admitted(store, known, min_size, platform);
            let now = real_run(s, links, files).1;
            let f = HashedFile { meta: store[i].meta, hash: store[i].hash };
            &&& now.contains_key(f.hash)
            &&& known.contains(f.meta.ino) ==> f.meta.ino == now[f.hash].0
            &&& !known.contains(f.meta.ino) ==> files.contains(f) && forall|k: int|
                0 <= k < files.len() && #[trigger] files[k] == f ==> inodes_after(
                    s,
                    links,
                    files,
                )[k] == now[f.hash].0
        }),
{
    let files = admitted(store, known, min_size, platform);
    let f = HashedFile { meta: store[i].meta, hash: store[i].hash };
    if known.contains(f.meta.ino) {
        assert(files.take(0) =~= Seq::empty());
        lemma_links_stay(s, links, files, 0, f.hash);
    } else {
        law_shareable_files_are_hashed(store, known, min_size, platform, i);
        let first = choose|k: int| 0 <= k < files.len() && files[k] == f;
        law_files_become_their_links(s, links, files, first);
        assert forall|k: int| 0 <= k < files.len() && #[trigger] files[k] == f implies inodes_after(
            s,
            links,
            files,
        )[k] == real_run(s, links, files).1[f.hash].0 by {
            law_files_become_their_links(s, links, files, k);
        }
    }
}

/// Where a hash has no link yet, the later files with that hash are other files
/// than the first one, and of its size.
pub open spec fn copies_of_first(
    links: Map<Seq<char>, (u64, u64)>,
    files: Seq<HashedFile>,
) -> bool {
    forall|i: int, j: int|
        0 <= i < j < files.len() && (#[trigger] files[i]).hash == (#[trigger] files[j]).hash
            && !links.contains_key(files[i].hash) && is_first_of_hash(files, i)
            ==> files[i].meta.ino != files[j].meta.ino && files[i].meta.len == files[j].meta.len
}

/// Links made by a run are those of the first files with their hashes.
spec fn made_by(
    now: Map<Seq<char>, (u64, u64)>,
    links: Map<Seq<char>, (u64, u64)>,
    seen: Set<Seq<char>>,
    files: Seq<HashedFile>,
) -> bool {
    &&& forall|h: Seq<char>| #[trigger]
        now.contains_key(h) <==> links.contains_key(h) || seen.contains(h)
    &&& forall|h: Seq<char>| #[trigger] links.contains_key(h) ==> now[h] == links[h]
        && !seen.contains(h)
    &&& forall|h: Seq<char>| #[trigger]
        seen.contains(h) ==> exists|i: int| #[trigger] made_from(now, files, h, i)
    &&& forall|i: int|
        0 <= i < files.len() ==> links.contains_key((#[trigger] files[i]).hash) || seen.contains(
            files[i].hash,
        )
}

/// The link of `h` was made from the file at `i`, the first with that hash.
spec fn made_from(
    now: Map<Seq<char>, (u64, u64)>,
    files: Seq<HashedFile>,
    h: Seq<char>,
    i: int,
) -> bool {
    &&& 0 <= i < files.len()
    &&& files[i].hash == h
    &&& is_first_of_hash(files, i)
    &&& now[h] == (files[i].meta.ino, files[i].meta.len)
}

proof fn lemma_first_kept(files: Seq<HashedFile>, i: int)
    requires
        0 <= i < files.len() - 1,
    ensures
        is_first_of_hash(files.drop_last(), i) <==> is_first_of_hash(files, i),
{
    let init = files.drop_last();
    assert(forall|k: int| 0 <= k <= i ==> #[trigger] init[k] == #[trigger] files[k]);
    if is_first_of_hash(init, i) {
        assert forall|k: int| 0 <= k < i implies (#[trigger] files[k]).hash != files[i].hash by {
            assert(init[k].hash != init[i].hash);
        }
    }
}

proof fn lemma_runs_agree(
    s: StatsView,
    links: Map<Seq<char>, (u64, u64)>,
    files: Seq<HashedFile>,
)
    requires
        copies_of_first(links, files),
        s.dry_run_links == Set::<Seq<char>>::empty(),
    ensures
        ({
            let (r, now) = real_run(s, links, files);
            let d = dry_run(s, links, files);
            &&& r.files_linked == d.files_linked
            &&& r.bytes_freed == d.bytes_freed
            &&& made_by(now, links, d.dry_run_links, files)
        }),
    decreases files.len(),
{
    if files.len() > 0 {
        let init = files.drop_last();
        let f = files.last();
        let last = files.len() - 1;
        assert(copies_of_first(links, init)) by {
            assert forall|i: int, j: int|
                0 <= i < j < init.len() && (#[trigger] init[i]).hash == (#[trigger] init[j]).hash
                    && !links.contains_key(init[i].hash) && is_first_of_hash(
                    init,
                    i,
                ) implies init[i].meta.ino != init[j].meta.ino && init[i].meta.len
                == init[j].meta.len by {
                lemma_first_kept(files, i);
                assert(files[i].hash == files[j].hash);
            }
        }
        lemma_runs_agree(s, links, init);
        let (t, was) = real_run(s, links, init);
        let dt = dry_run(s, links, init);
        let (r, now) = real_run(s, links, files);
        let d = dry_run(s, links, files);
        let h = f.hash;
        if dt.dry_run_links.contains(h) {
            let i = choose|i: int| #[trigger] made_from(was, init, h, i);
            lemma_first_kept(files, i);
            assert(files[i].hash == files[last].hash);
        }
        assert forall|x: Seq<char>| #[trigger] d.dry_run_links.contains(x) implies exists|i: int|
            #[trigger] made_from(now, files, x, i) by {
            if dt.dry_run_links.contains(x) {
                let i = choose|i: int| #[trigger] made_from(was, init, x, i);
                lemma_first_kept(files, i);
                assert(now[x] == was[x]);
                assert(made_from(now, files, x, i));
            } else {
                assert forall|k: int| 0 <= k < last implies (#[trigger] files[k]).hash != x by {
                    assert(links.contains_key(init[k].hash) || dt.dry_run_links.contains(
                        init[k].hash,
                    ));
                }
                assert(made_from(now, files, x, last));
            }
        }
        assert forall|i: int| 0 <= i < files.len() implies links.contains_key(
            (#[trigger] files[i]).hash,
        ) || d.dry_run_links.contains(files[i].hash) by {
            if i < last {
                assert(links.contains_key(init[i].hash) || dt.dry_run_links.contains(init[i].hash));
            }
        }
    }
}

/// A dry run counts what a run in which nothing fails would link and free, as
/// long as the files that it takes for copies of one that it met before are
/// other files than that one, and of its size.
pub proof fn law_dry_run_counts_like_a_real_run(
    s: StatsView,
    links: Map<Seq<char>, (u64, u64)>,
    files: Seq<HashedFile>,
)
    requires
        copies_of_first(links, files),
        s.dry_run_links == Set::<Seq<char>>::empty(),
    ensures
        real_run(s, links, files).0.files_linked == dry_run(s, links, files).files_linked,
        real_run(s, links, files).0.bytes_freed == dry_run(s, links, files).bytes_freed,
{
    lemma_runs_agree(s, links, files);
}

/// A file is replaced only by a link of the same size that is another file, and
/// never in a dry run.
pub proof fn law_only_matching_links_replace(meta: FileMeta, dry: bool, stat: LinkStat)
    ensures
        after_stat(meta, dry, stat) == Action::Replace <==> !dry && stat is Found
            && stat->ino != meta.ino && stat->len == meta.len,
{
}

/// A file that shares its inode with the link of its hash is left alone and not
/// counted.
pub proof fn law_shared_files_are_left_alone(
    s: StatsView,
    meta: FileMeta,
    hash: Seq<char>,
    dry: bool,
    len: u64,
)
    ensures
        after_stat(meta, dry, LinkStat::Found { ino: meta.ino, len }) == Action::Done,
        stats_after_stat(s, meta, hash, dry, LinkStat::Found { ino: meta.ino, len }) == s,
{
}

/// A dry run never changes anything.
pub proof fn law_dry_run_changes_nothing(meta: FileMeta, stat: LinkStat)
    ensures
        after_stat(meta, true, stat) != Action::CreateLink,
        after_stat(meta, true, stat) != Action::Replace,
{
}

/// A hash without a link gets one, a link of another size is corrupt and leaves
/// the file alone, and a look that failed is an error. A real run counts nothing
/// before the file is replaced.
pub proof fn law_every_look_is_answered(
    s: StatsView,
    meta: FileMeta,
    hash: Seq<char>,
    dry: bool,
    ino: u64,
    len: u64,
    stat: LinkStat,
)
    ensures
        after_stat(meta, false, LinkStat::Missing) == Action::CreateLink,
        after_stat(meta, true, LinkStat::Missing) == Action::Done,
        after_stat(meta, dry, LinkStat::Failed) == Action::Fail,
        ino != meta.ino && len != meta.len ==> after_stat(meta, dry, LinkStat::Found { ino, len })
            == Action::DoneMismatch,
        stats_after_stat(s, meta, hash, false, stat) == s,
        ino != meta.ino && len == meta.len ==> stats_after_stat(
            s,
            meta,
            hash,
            true,
            LinkStat::Found { ino, len },
        ) == s.linked(meta.len),
        len != meta.len ==> stats_after_stat(s, meta, hash, true, LinkStat::Found { ino, len })
            == s,
        stats_after_stat(s, meta, hash, true, LinkStat::Missing) == s.would_link(hash, meta.len),
        stats_after_stat(s, meta, hash, true, LinkStat::Failed) == s,
{
}

/// A link that was made, or that another worker made first, is looked at again.
/// A full disk is counted and passed over, a file that is gone is passed over,
/// and any other fault is an error.
pub proof fn law_only_odd_faults_fail(
    s: StatsView,
    kind: IoKind,
    errno: Option<i32>,
    enospc: i32,
    emlink: i32,
)
    ensures
        after_create(None, enospc) == Action::StatAgain,
        stats_after_create(s, None, enospc) == s,
        ({
            let fault = IoFault { kind, errno };
            let full = errno == Some(enospc);
            let capped = errno == Some(emlink);
            &&& kind == IoKind::AlreadyExists ==> after_create(Some(fault), enospc)
                == Action::StatAgain && stats_after_create(s, Some(fault), enospc) == s
            &&& kind != IoKind::AlreadyExists && full ==> after_create(Some(fault), enospc)
                == Action::Done && stats_after_create(s, Some(fault), enospc).link_enospc
                == s.link_enospc.wrapping_add(1)
            &&& kind == IoKind::NotFound ==> after_create(Some(fault), enospc) == Action::Done
            &&& kind == IoKind::Other && !full ==> after_create(Some(fault), enospc) == Action::Fail
            &&& !full ==> stats_after_create(s, Some(fault), enospc) == s
            &&& capped ==> after_replace(Some(Some(fault)), emlink) == Action::Done
            &&& kind == IoKind::NotFound ==> after_replace(Some(Some(fault)), emlink)
                == Action::Done
            &&& kind != IoKind::NotFound && !capped ==> after_replace(Some(Some(fault)), emlink)
                == Action::Fail
        }),
        after_replace(None, emlink) == Action::Done,
        after_replace(Some(None), emlink) == Action::Fail,
{
}

/// Files that need no look: those already shared under a link, and whatever is
/// neither a regular file nor a symlink.
pub fn wants_stat(kind: FileKind, known_inode: bool) -> (r: bool)
    ensures
        r == (kind != FileKind::Other && !known_inode),
{
    kind != FileKind::Other && !known_inode
}

/// Whether the directory of a file must be made writable while the file is
/// replaced: the store directory itself always is.
pub fn must_toggle(parent: &[u8], store_dir: &[u8]) -> (r: bool)
    ensures
        r == !paths::same_path(parent@, store_dir@),
{
    !paths::paths_equal(parent, store_dir)
}

/// The temporary name of a link in the store directory. A crash leaves it
/// outside of every store path, where the next collection finds it as unknown.
pub open spec fn temp_link(pid: u32, suffix: u64) -> Seq<char> {
    ".tmp-link-"@ + numbers::decimal(pid as int) + "-"@ + numbers::decimal(suffix as int)
}

/// The temporary name of a link, for a process and a suffix.
pub fn temp_link_name(pid: u32, suffix: u64) -> (r: String)
    ensures
        r@ == temp_link(pid, suffix),
{
    let mut s = ".tmp-link-".to_owned();
    numbers::push_decimal(&mut s, pid as u64);
    s.append("-");
    numbers::push_decimal(&mut s, suffix);
    s
}

/// Different processes and suffixes give different temporary names, all of which
/// begin alike and none of which is a store path.
pub proof fn law_temp_links_differ(pid: u32, suffix: u64, other_pid: u32, other_suffix: u64)
    ensures
        temp_link(pid, suffix) == temp_link(other_pid, other_suffix) ==> pid == other_pid && suffix
            == other_suffix,
        text::starts_with(temp_link(pid, suffix), ".tmp-link-"@),
        !roots::is_basename(temp_link(pid, suffix)),
{
    reveal_strlit(".tmp-link-");
    reveal_strlit("-");
    let head = ".tmp-link-"@;
    let a = numbers::decimal(pid as int);
    let b = numbers::decimal(suffix as int);
    let c = numbers::decimal(other_pid as int);
    let d = numbers::decimal(other_suffix as int);
    let one = temp_link(pid, suffix);
    let two = temp_link(other_pid, other_suffix);
    numbers::law_decimal_is_plain(pid as u64, other_pid as u64);
    numbers::law_decimal_is_plain(other_pid as u64, pid as u64);
    numbers::law_decimal_is_plain(suffix, other_suffix);
    assert(one.subrange(0, head.len() as int) =~= head);
    assert(one[0] == '.');
    assert(!roots::is_hash_char(one[0]));
    if one == two {
        let h = head.len() as int;
        if a.len() < c.len() {
            assert(one[h + a.len()] == '-');
            assert(two[h + a.len()] == c[a.len() as int]);
        }
        if c.len() < a.len() {
            assert(two[h + c.len()] == '-');
            assert(one[h + c.len()] == a[c.len() as int]);
        }
        assert(a.len() == c.len());
        assert(one.len() == two.len());
        assert(b.len() == d.len());
        assert forall|i: int| 0 <= i < a.len() implies a[i] == c[i] by {
            assert(one[h + i] == a[i]);
            assert(two[h + i] == c[i]);
        }
        assert(a =~= c);
        assert forall|i: int| 0 <= i < b.len() implies b[i] == d[i] by {
            assert(one[h + a.len() + 1 + i] == b[i]);
            assert(two[h + c.len() + 1 + i] == d[i]);
        }
        assert(b =~= d);
    }
}

/// A hasher of `foldhash`.
#[verifier::external_type_specification]
#[verifier::external_body]
pub struct ExFoldHasher<'a>(foldhash::fast::FoldHasher<'a>);

/// The hasher of a new `foldhash::fast::RandomState`, by `build_hasher`. It has a
/// random seed, so nothing is claimed of it.
#[verifier::external_body]
fn seeded_hasher() -> (r: foldhash::fast::FoldHasher<'static>) {
    foldhash::fast::RandomState::default().build_hasher()
}

/// The hasher after `write_u128`. How the number is mixed in depends on the word
/// size of the machine, so nothing is claimed of it.
#[verifier::external_body]
fn with_u128(h: foldhash::fast::FoldHasher<'static>, n: u128) -> (r: foldhash::fast::FoldHasher<
    'static,
>) {
    let mut h = h;
    h.write_u128(n);
    h
}

/// The hasher after `write_u64`, of which nothing is claimed either.
#[verifier::external_body]
fn with_u64(h: foldhash::fast::FoldHasher<'static>, n: u64) -> (r: foldhash::fast::FoldHasher<
    'static,
>) {
    let mut h = h;
    h.write_u64(n);
    h
}

/// What `finish` gives for the hasher, of which nothing is claimed either.
#[verifier::external_body]
fn hash_so_far(h: foldhash::fast::FoldHasher<'static>) -> (r: u64) {
    h.finish()
}

/// `suffix` is what a hasher with a random seed gives once the time and the
/// counter, in this order and nothing else, have been mixed in.
pub closed spec fn is_suffix(nanos: u128, counter: u64, suffix: u64) -> bool {
    exists|
        seeded: foldhash::fast::FoldHasher<'static>,
        timed: foldhash::fast::FoldHasher<'static>,
        counted: foldhash::fast::FoldHasher<'static>,
    |
        {
            &&& call_ensures(seeded_hasher, (), seeded)
            &&& #[trigger] call_ensures(with_u128, (seeded, nanos), timed)
            &&& #[trigger] call_ensures(with_u64, (timed, counter), counted)
            &&& call_ensures(hash_so_far, (counted,), suffix)
        }
}

/// A random suffix from the time and a counter.
fn rand_suffix(nanos: u128, counter: u64) -> (r: u64)
    ensures
        is_suffix(nanos, counter, r),
{
    let seeded = seeded_hasher();
    let ghost h0 = seeded;
    let timed = with_u128(seeded, nanos);
    let ghost h1 = timed;
    let counted = with_u64(timed, counter);
    let ghost h2 = counted;
    let r: u64 = hash_so_far(counted);
    assert(call_ensures(with_u128, (h0, nanos), h1));
    assert(call_ensures(with_u64, (h1, counter), h2));
    r
}

/// A temporary name of a link with a random suffix. `nanos` is the time and
/// `counter` the number of names that this process has asked for before.
pub fn fresh_temp_link_name(pid: u32, nanos: u128, counter: u64) -> (r: String)
    ensures
        exists|suffix: u64| #[trigger]
            is_suffix(nanos, counter, suffix) && r@ == temp_link(pid, suffix),
{
    let suffix: u64 = rand_suffix(nanos, counter);
    temp_link_name(pid, suffix)
}

/// How many locks the directories share.
pub const SHARDS: u64 = 256;

/// A hash of `dir` by `foldhash::fast::FixedState`. It depends on the byte
/// order and the word size of the machine, so nothing is claimed of it, not even
/// that it is the same for the same bytes.
#[verifier::external_body]
fn dir_hash(dir: &[u8]) -> (r: u64) {
    foldhash::fast::FixedState::default().hash_one(dir)
}

/// The lock of the directories with this hash.
pub fn shard_of(hash: u64) -> (r: usize)
    ensures
        r == hash % SHARDS,
        r < SHARDS,
{
    (hash % SHARDS) as usize
}

/// What is hashed of a directory.
pub open spec fn plain_path(dir: Seq<u8>) -> Seq<u8> {
    paths::rendered(paths::is_absolute(dir), paths::components(dir))
}

/// What is hashed of a directory: its components, written in the plain way.
pub fn shard_key(dir: &[u8]) -> (r: Vec<u8>)
    ensures
        r@ == plain_path(dir@),
{
    let parts = paths::path_components(dir);
    let n: usize = parts.len();
    proof {
        let all = paths::raw_views(parts@);
        assert(all.take(n as int) =~= all);
    }
    paths::render(paths::path_is_absolute(dir), &parts, n)
}

/// One directory has one key, however it is spelt.
pub proof fn law_one_key_per_directory(p: Seq<u8>, q: Seq<u8>)
    requires
        paths::same_path(p, q),
    ensures
        plain_path(p) == plain_path(q),
{
}

/// `hash` is what the hasher with the fixed seed gives for `key`.
pub closed spec fn is_hash_of(key: Seq<u8>, hash: u64) -> bool {
    exists|bytes: &[u8]| #[trigger] call_ensures(dir_hash, (bytes,), hash) && bytes@ == key
}

/// The lock of a directory, by the hash of its key.
pub fn dir_shard(dir: &[u8]) -> (r: usize)
    ensures
        exists|hash: u64| #[trigger] is_hash_of(plain_path(dir@), hash) && r == hash % SHARDS,
        r < SHARDS,
{
    let key = shard_key(dir);
    let bytes = key.as_slice();
    let hash: u64 = dir_hash(bytes);
    assert(call_ensures(dir_hash, (bytes,), hash));
    assert(is_hash_of(plain_path(dir@), hash));
    shard_of(hash)
}

/// Mode of a directory while a file in it is replaced.
pub const WRITABLE_MODE: u32 = 0o755;

/// Mode of a directory in the store.
pub const READ_ONLY_MODE: u32 = 0o555;

/// Modification time of whatever is in the store.
pub const STORE_MTIME: i64 = 1;

/// A step of the replacement of a file by a link.
#[derive(Clone, Copy, PartialEq, Eq, Structural)]
pub enum ReplaceStep {
    /// Make the directory writable.
    MakeWritable,
    /// Give the link a temporary name in the store directory.
    LinkTemp,
    /// Move that name over the file.
    Rename,
    /// Remove the temporary name.
    RemoveTemp,
    /// Make the directory read-only again and reset its time.
    Restore,
    /// Nothing is left to do.
    Finish,
}

/// The replacement of a file by a link, under way.
#[derive(Clone, Copy, PartialEq, Eq, Structural)]
pub struct Replacement {
    /// Whether the directory is made writable for it.
    pub toggle: bool,
    pub step: ReplaceStep,
    pub failed: bool,
}

impl Replacement {
    /// The directory is writable on account of the replacement.
    pub open spec fn dir_open(self) -> bool {
        self.toggle && self.step != ReplaceStep::MakeWritable && self.step != ReplaceStep::Finish
    }

    /// The temporary name exists.
    pub open spec fn temp_exists(self) -> bool {
        self.step == ReplaceStep::Rename || self.step == ReplaceStep::RemoveTemp
    }

    /// What remains once the file itself has been dealt with.
    pub open spec fn wound_up(self, failed: bool) -> Replacement {
        Replacement {
            toggle: self.toggle,
            step: if self.toggle {
                ReplaceStep::Restore
            } else {
                ReplaceStep::Finish
            },
            failed,
        }
    }

    /// The replacement after its step succeeded or failed.
    pub open spec fn after(self, ok: bool) -> Replacement {
        match self.step {
            ReplaceStep::MakeWritable => if ok {
                Replacement { toggle: self.toggle, step: ReplaceStep::LinkTemp, failed: self.failed }
            } else {
                Replacement { toggle: self.toggle, step: ReplaceStep::Finish, failed: true }
            },
            ReplaceStep::LinkTemp => if ok {
                Replacement { toggle: self.toggle, step: ReplaceStep::Rename, failed: self.failed }
            } else {
                self.wound_up(true)
            },
            ReplaceStep::Rename => if ok {
                self.wound_up(self.failed)
            } else {
                Replacement { toggle: self.toggle, step: ReplaceStep::RemoveTemp, failed: true }
            },
            ReplaceStep::RemoveTemp => self.wound_up(self.failed),
            ReplaceStep::Restore => Replacement {
                toggle: self.toggle,
                step: ReplaceStep::Finish,
                failed: self.failed,
            },
            ReplaceStep::Finish => self,
        }
    }

    /// Begin to replace a file in the directory `parent`.
    pub fn begin(parent: &[u8], store_dir: &[u8]) -> (r: Replacement)
        ensures
            r.toggle == !paths::same_path(parent@, store_dir@),
            r.step == if r.toggle {
                ReplaceStep::MakeWritable
            } else {
                ReplaceStep::LinkTemp
            },
            !r.failed,
    {
        let toggle = must_toggle(parent, store_dir);
        Replacement {
            toggle,
            step: if toggle {
                ReplaceStep::MakeWritable
            } else {
                ReplaceStep::LinkTemp
            },
            failed: false,
        }
    }

    /// The step is over. Whether the temporary name could be removed and the
    /// directory restored makes no difference.
    pub fn advance(self, ok: bool) -> (r: Replacement)
        ensures
            r == self.after(ok),
    {
        let wound_up = if self.toggle {
            ReplaceStep::Restore
        } else {
            ReplaceStep::Finish
        };
        let (step, failed) = match self.step {
            ReplaceStep::MakeWritable => if ok {
                (ReplaceStep::LinkTemp, self.failed)
            } else {
                (ReplaceStep::Finish, true)
            },
            ReplaceStep::LinkTemp => if ok {
                (ReplaceStep::Rename, self.failed)
            } else {
                (wound_up, true)
            },
            ReplaceStep::Rename => if ok {
                (wound_up, self.failed)
            } else {
                (ReplaceStep::RemoveTemp, true)
            },
            ReplaceStep::RemoveTemp => (wound_up, self.failed),
            ReplaceStep::Restore => (ReplaceStep::Finish, self.failed),
            ReplaceStep::Finish => (ReplaceStep::Finish, self.failed),
        };
        Replacement { toggle: self.toggle, step, failed }
    }
}

/// A directory that was made writable stays so until the step that restores it,
/// whatever fails, and a temporary name is moved or removed.
pub proof fn law_directory_is_restored(r: Replacement, ok: bool)
    ensures
        r.dir_open() && r.step != ReplaceStep::Restore ==> r.after(ok).dir_open(),
        r.step == ReplaceStep::Restore ==> !r.after(ok).dir_open(),
        r.step == ReplaceStep::Rename && !ok ==> r.after(ok).step == ReplaceStep::RemoveTemp,
        r.temp_exists() && r.step != ReplaceStep::Rename ==> !r.after(ok).temp_exists(),
        r.failed ==> r.after(ok).failed,
{
}

/// A directory is writable while a file in it is replaced and not afterwards,
/// and nothing else about its mode changes: whoever could read or enter it still
/// can, and nobody else can write to it at any time.
pub proof fn law_only_the_write_bit_is_toggled(bit: u32)
    requires
        bit & 0o200 == 0,
    ensures
        is_writable(WRITABLE_MODE),
        !is_writable(READ_ONLY_MODE),
        WRITABLE_MODE & bit == READ_ONLY_MODE & bit,
        WRITABLE_MODE & 0o022 == 0,
        READ_ONLY_MODE & 0o555 == 0o555,
{
    assert(0o755u32 & bit == 0o555u32 & bit) by (bit_vector)
        requires
            bit & 0o200 == 0,
    ;
    assert(0o755u32 & 0o022 == 0) by (bit_vector);
    assert(0o555u32 & 0o555 == 0o555) by (bit_vector);
}

/// A replacement opens the directory where it must, links, renames, and restores
/// the directory where it opened it. It fails exactly if one of the first three
/// fails: whether cleaning up works makes no difference.
pub proof fn law_replacement_takes_every_step(r: Replacement, ok: bool)
    ensures
        r.after(ok).toggle == r.toggle,
        r.step == ReplaceStep::MakeWritable && ok ==> r.after(ok).step == ReplaceStep::LinkTemp,
        r.step == ReplaceStep::MakeWritable && !ok ==> r.after(ok).step == ReplaceStep::Finish,
        r.step == ReplaceStep::LinkTemp && ok ==> r.after(ok).step == ReplaceStep::Rename,
        (r.step == ReplaceStep::LinkTemp && !ok) || (r.step == ReplaceStep::Rename && ok) || r.step
            == ReplaceStep::RemoveTemp ==> r.after(ok).step == if r.toggle {
            ReplaceStep::Restore
        } else {
            ReplaceStep::Finish
        },
        r.step == ReplaceStep::Restore ==> r.after(ok).step == ReplaceStep::Finish,
        r.step == ReplaceStep::Finish ==> r.after(ok) == r,
        r.step == ReplaceStep::MakeWritable || r.step == ReplaceStep::LinkTemp || r.step
            == ReplaceStep::Rename ==> r.after(ok).failed == (r.failed || !ok),
        r.step == ReplaceStep::RemoveTemp || r.step == ReplaceStep::Restore ==> r.after(ok).failed
            == r.failed,
{
}

/// What to do with a store path.
#[derive(Clone, Copy, PartialEq, Eq, Structural)]
pub enum PathStep {
    /// Register it as a temp root, then ask whether it is still valid.
    Register,
    /// Look at its files.
    Walk,
    /// Leave it alone.
    Skip,
}

/// Decide what to do with a store path. A path that was collected before it was
/// registered is no longer valid. A dry run touches nothing and registers
/// nothing.
pub fn on_store_path(dry_run: bool, valid: Option<bool>) -> (r: PathStep)
    ensures
        r == if dry_run {
            PathStep::Walk
        } else {
            match valid {
                None => PathStep::Register,
                Some(true) => PathStep::Walk,
                Some(false) => PathStep::Skip,
            }
        },
        dry_run ==> r == PathStep::Walk,
        r == PathStep::Walk ==> dry_run || valid == Some(true),
        r == PathStep::Skip <==> !dry_run && valid == Some(false),
{
    if dry_run {
        return PathStep::Walk;
    }
    match valid {
        None => PathStep::Register,
        Some(true) => PathStep::Walk,
        Some(false) => PathStep::Skip,
    }
}

/// An entry that is gone when it is looked at was collected; any other failure
/// gives up the store path.
pub fn walk_fault_is_fatal(kind: IoKind) -> (r: bool)
    ensures
        r == (kind != IoKind::NotFound),
{
    kind != IoKind::NotFound
}

/// The line that sums up a run.
pub fn summary(stats: &Stats, dry_run: bool) -> (r: String)
    ensures
        r@ == size::shown(stats@.bytes_freed) + (if dry_run {
            " would be freed by hard-linking "@
        } else {
            " freed by hard-linking "@
        }) + numbers::decimal(stats@.files_linked as int) + " files"@,
{
    let mut s = size::format_size(stats.bytes_freed);
    if dry_run {
        s.append(" would be freed by hard-linking ");
    } else {
        s.append(" freed by hard-linking ");
    }
    numbers::push_decimal(&mut s, stats.files_linked);
    s.append(" files");
    s
}

} // verus!
