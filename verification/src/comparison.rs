//! Comparing two collectors on copies of one store: how the store is damaged
//! beforehand, and when they agree.
use crate::numbers;
use crate::roots;
use crate::text;
use crate::text_set;
use crate::text_set::TextSet;
use vstd::prelude::*;

verus! {

/// A damage to a store or its state. Both collectors must cope with it.
#[derive(Clone, Copy, Debug, PartialEq, Eq, Structural)]
pub enum Corruption {
    /// A store path is gone from disk, its row is not.
    DeleteOnDisk,
    /// A directory with a plausible name but without a row.
    JunkDir,
    /// The same, but a regular file.
    JunkFile,
    /// A regular file whose name is no store path.
    JunkFileBadName,
    /// A root that points to a plausible store path that does not exist.
    DanglingRoot,
    /// A root that points outside of the store.
    OutsideRoot,
    /// The temp roots of a process that is gone.
    StaleTempRoot,
}

/// How many damages a store gets at most.
pub const MAX_CORRUPTIONS: u32 = 3;

/// How many draws there are for a damage.
pub const CORRUPTION_DRAWS: usize = 7;

/// The damage for a draw.
pub open spec fn drawn_corruption(k: int) -> Corruption {
    if k == 0 {
        Corruption::DeleteOnDisk
    } else if k == 1 {
        Corruption::JunkDir
    } else if k == 2 {
        Corruption::JunkFile
    } else if k == 3 {
        Corruption::JunkFileBadName
    } else if k == 4 {
        Corruption::DanglingRoot
    } else if k == 5 {
        Corruption::OutsideRoot
    } else {
        Corruption::StaleTempRoot
    }
}

/// The damage for a draw.
pub fn corruption_of_draw(k: usize) -> (r: Corruption)
    ensures
        r == drawn_corruption(k as int),
{
    match k {
        0 => Corruption::DeleteOnDisk,
        1 => Corruption::JunkDir,
        2 => Corruption::JunkFile,
        3 => Corruption::JunkFileBadName,
        4 => Corruption::DanglingRoot,
        5 => Corruption::OutsideRoot,
        _ => Corruption::StaleTempRoot,
    }
}

/// 31 times `z`.
pub open spec fn filler() -> Seq<char> {
    "zzzzzzzzzzzzzzzzzzzzzzzzzzzzzzz"@
}

/// A name that parses as a store path: 32 digits of a hash, the last of them
/// from `i`, then the suffix and `i`.
pub open spec fn junk_name(i: u32, suffix: Seq<char>) -> Seq<char> {
    filler() + numbers::decimal((i % 10) as int) + "-"@ + suffix + numbers::decimal(i as int)
}

/// A name that parses as a store path, for the damage number `i`.
pub fn junk_basename(i: u32, suffix: &str) -> (r: String)
    ensures
        r@ == junk_name(i, suffix@),
{
    let mut r = "zzzzzzzzzzzzzzzzzzzzzzzzzzzzzzz".to_owned();
    numbers::push_decimal(&mut r, (i % 10) as u64);
    r.append("-");
    r.append(suffix);
    numbers::push_decimal(&mut r, i as u64);
    r
}

/// Different damages have different names.
pub proof fn law_junk_names_differ(i: u32, j: u32, suffix: Seq<char>)
    ensures
        junk_name(i, suffix) == junk_name(j, suffix) ==> i == j,
{
    if junk_name(i, suffix) == junk_name(j, suffix) {
        let a = junk_name(i, suffix);
        let m = 33 + suffix.len();
        reveal_strlit("zzzzzzzzzzzzzzzzzzzzzzzzzzzzzzz");
        reveal_strlit("-");
        assert(a.skip(m as int) =~= numbers::decimal(i as int));
        assert(junk_name(j, suffix).skip(m as int) =~= numbers::decimal(j as int));
        numbers::law_decimal_reads_back(i as u64);
        numbers::law_decimal_reads_back(j as u64);
    }
}

/// Names in the store whose handling may differ between the collectors, and
/// which are therefore judged apart.
pub struct CorruptionEffects {
    /// Entries on disk that no row knows. Both collectors must delete them.
    pub junk: Vec<String>,
    /// Entries that are gone from disk. Whether their rows stay is left open.
    pub deleted: Vec<String>,
}

impl CorruptionEffects {
    /// Nothing was damaged.
    pub fn new() -> (r: CorruptionEffects)
        ensures
            r.junk@ == Seq::<String>::empty(),
            r.deleted@ == Seq::<String>::empty(),
    {
        CorruptionEffects { junk: Vec::new(), deleted: Vec::new() }
    }
}

/// What to do to the store or its state.
pub enum CorruptionAction {
    /// Nothing: there is no entry to pick.
    Nothing,
    /// Remove this entry of the store.
    Remove(String),
    /// Make this directory in the store, with a file in it.
    MakeDir(String),
    /// Make this file in the store.
    MakeFile(String),
    /// Make a root of this name that points to this path.
    LinkRoot(String, String),
    /// Make a root of this name that points outside of the store.
    LinkOutside(String),
    /// Write these temp roots under this name.
    WriteTempRoots(String, String),
}

/// What is done, in terms of texts.
pub enum CorruptionPlan {
    Nothing,
    Remove(Seq<char>),
    MakeDir(Seq<char>),
    MakeFile(Seq<char>),
    LinkRoot(Seq<char>, Seq<char>),
    LinkOutside(Seq<char>),
    WriteTempRoots(Seq<char>, Seq<char>),
}

impl View for CorruptionAction {
    type V = CorruptionPlan;

    open spec fn view(&self) -> CorruptionPlan {
        match self {
            CorruptionAction::Nothing => CorruptionPlan::Nothing,
            CorruptionAction::Remove(name) => CorruptionPlan::Remove(name@),
            CorruptionAction::MakeDir(name) => CorruptionPlan::MakeDir(name@),
            CorruptionAction::MakeFile(name) => CorruptionPlan::MakeFile(name@),
            CorruptionAction::LinkRoot(name, path) => CorruptionPlan::LinkRoot(name@, path@),
            CorruptionAction::LinkOutside(name) => CorruptionPlan::LinkOutside(name@),
            CorruptionAction::WriteTempRoots(name, contents) => CorruptionPlan::WriteTempRoots(
                name@,
                contents@,
            ),
        }
    }
}

/// What the damage number `i` does. `pick` is the entry that was drawn.
pub open spec fn corruption_plan(
    op: Corruption,
    i: u32,
    entries: Seq<Seq<char>>,
    pick: int,
    store_dir: Seq<char>,
) -> CorruptionPlan {
    match op {
        Corruption::DeleteOnDisk => if entries.len() == 0 {
            CorruptionPlan::Nothing
        } else {
            CorruptionPlan::Remove(entries[pick])
        },
        Corruption::JunkDir => CorruptionPlan::MakeDir(junk_name(i, "junkdir"@)),
        Corruption::JunkFile => CorruptionPlan::MakeFile(junk_name(i, "junkfile"@)),
        Corruption::JunkFileBadName => CorruptionPlan::MakeFile(
            "junkfile-"@ + numbers::decimal(i as int),
        ),
        Corruption::DanglingRoot => CorruptionPlan::LinkRoot(
            "dangling-"@ + numbers::decimal(i as int),
            store_dir + "/"@ + junk_name(i, "missing"@),
        ),
        Corruption::OutsideRoot => CorruptionPlan::LinkOutside(
            "outside-"@ + numbers::decimal(i as int),
        ),
        Corruption::StaleTempRoot => if entries.len() == 0 {
            CorruptionPlan::Nothing
        } else {
            CorruptionPlan::WriteTempRoots(
                numbers::decimal(4000000 + i),
                store_dir + "/"@ + entries[pick] + "\0"@,
            )
        },
    }
}

/// Whether the damage needs an entry to be drawn.
pub fn needs_entry(op: Corruption) -> (r: bool)
    ensures
        r == (op == Corruption::DeleteOnDisk || op == Corruption::StaleTempRoot),
{
    op == Corruption::DeleteOnDisk || op == Corruption::StaleTempRoot
}

/// A text and the decimal notation of `i`.
fn numbered(prefix: &str, i: u32) -> (r: String)
    ensures
        r@ == prefix@ + numbers::decimal(i as int),
{
    let mut r = prefix.to_owned();
    numbers::push_decimal(&mut r, i as u64);
    r
}

/// Decide what the damage number `i` does. An entry that is removed is no
/// longer among the entries, so that it is not drawn again.
pub fn apply_corruption(
    op: Corruption,
    i: u32,
    pick: usize,
    store_dir: &str,
    entries: &mut Vec<String>,
    fx: &mut CorruptionEffects,
) -> (r: CorruptionAction)
    requires
        old(entries)@.len() > 0 && (op == Corruption::DeleteOnDisk || op
            == Corruption::StaleTempRoot) ==> pick < old(entries)@.len(),
    ensures
        r@ == corruption_plan(op, i, text::views(old(entries)@), pick as int, store_dir@),
        text::views(final(entries)@) == if r@ is Remove {
            text::views(old(entries)@).remove(pick as int)
        } else {
            text::views(old(entries)@)
        },
        text::views(final(fx).deleted@) == match r@ {
            CorruptionPlan::Remove(name) => text::views(old(fx).deleted@).push(name),
            _ => text::views(old(fx).deleted@),
        },
        text::views(final(fx).junk@) == match r@ {
            CorruptionPlan::MakeDir(name) => text::views(old(fx).junk@).push(name),
            CorruptionPlan::MakeFile(name) => text::views(old(fx).junk@).push(name),
            _ => text::views(old(fx).junk@),
        },
{
    match op {
        Corruption::DeleteOnDisk => {
            if entries.len() == 0 {
                return CorruptionAction::Nothing;
            }
            let ghost was = entries@;
            let name = entries.remove(pick);
            proof {
                assert(text::views(entries@) =~= text::views(was).remove(pick as int));
            }
            let ghost deleted = fx.deleted@;
            fx.deleted.push(name.clone());
            proof {
                assert(text::views(fx.deleted@) =~= text::views(deleted).push(name@));
            }
            CorruptionAction::Remove(name)
        },
        Corruption::JunkDir => {
            let name = junk_basename(i, "junkdir");
            add_junk(fx, name.as_str());
            CorruptionAction::MakeDir(name)
        },
        Corruption::JunkFile => {
            let name = junk_basename(i, "junkfile");
            add_junk(fx, name.as_str());
            CorruptionAction::MakeFile(name)
        },
        Corruption::JunkFileBadName => {
            let name = numbered("junkfile-", i);
            add_junk(fx, name.as_str());
            CorruptionAction::MakeFile(name)
        },
        Corruption::DanglingRoot => {
            let missing = junk_basename(i, "missing");
            let path = text::join3(store_dir, "/", missing.as_str());
            CorruptionAction::LinkRoot(numbered("dangling-", i), path)
        },
        Corruption::OutsideRoot => CorruptionAction::LinkOutside(numbered("outside-", i)),
        Corruption::StaleTempRoot => {
            if entries.len() == 0 {
                return CorruptionAction::Nothing;
            }
            let mut name = String::new();
            numbers::push_decimal(&mut name, 4000000 + i as u64);
            assert(name@ =~= numbers::decimal(4000000 + i));
            let mut contents = text::join3(store_dir, "/", entries[pick].as_str());
            contents.append("\0");
            CorruptionAction::WriteTempRoots(name, contents)
        },
    }
}

fn add_junk(fx: &mut CorruptionEffects, name: &str)
    ensures
        text::views(final(fx).junk@) == text::views(old(fx).junk@).push(name@),
        final(fx).deleted@ == old(fx).deleted@,
{
    let ghost was = fx.junk@;
    fx.junk.push(name.to_owned());
    assert(text::views(fx.junk@) =~= text::views(was).push(name@));
}

/// An entry of the store that counts: neither shared files nor locks.
pub open spec fn listed(name: Seq<char>) -> bool {
    name != ".links"@ && name != ".gc-lock"@ && !text::ends_with(name, ".lock"@)
}

/// Whether an entry of the store counts.
pub fn is_listed(name: &str) -> (r: bool)
    ensures
        r == listed(name@),
{
    if text::same_text(name, ".links") || text::same_text(name, ".gc-lock") {
        return false;
    }
    match text::strip_suffix(name, ".lock") {
        Some(_) => false,
        None => true,
    }
}

/// The texts of `a` that are not in `b`, in order.
pub open spec fn without(a: Seq<Seq<char>>, b: Seq<Seq<char>>) -> Seq<Seq<char>> {
    a.filter(|s: Seq<char>| !b.contains(s))
}

/// The texts of `a` that are not in `b`, in order.
pub fn texts_without(a: &TextSet, b: &TextSet) -> (r: Vec<String>)
    requires
        b.wf(),
    ensures
        text::views(r@) == without(a@, b@),
{
    let ghost p = |s: Seq<char>| !b@.contains(s);
    let items = a.items();
    let ghost all = text::views(items@);
    let n: usize = items.len();
    let mut r: Vec<String> = Vec::new();
    let mut i: usize = 0;
    proof {
        reveal(Seq::filter);
        assert(all.take(0).filter(p) =~= Seq::<Seq<char>>::empty());
        assert(text::views(r@) =~= Seq::<Seq<char>>::empty());
    }
    while i < n
        invariant
            b.wf(),
            n == items@.len(),
            all == text::views(items@),
            p == |s: Seq<char>| !b@.contains(s),
            i <= n,
            text::views(r@) == all.take(i as int).filter(p),
        decreases n - i,
    {
        let ghost was = r@;
        proof {
            assert(all.take(i + 1) =~= all.take(i as int).push(all[i as int]));
            all.take(i as int).lemma_filter_push(all[i as int], p);
        }
        if !b.contains(items[i].as_str()) {
            r.push(items[i].clone());
            assert(text::views(r@) =~= text::views(was).push(all[i as int]));
        }
        i += 1;
    }
    assert(all.take(n as int) =~= all);
    r
}

/// The set of `items`, in order of their first occurrence.
pub open spec fn set_of(items: Seq<Seq<char>>) -> Seq<Seq<char>>
    decreases items.len(),
{
    if items.len() == 0 {
        Seq::empty()
    } else {
        text_set::with_item(set_of(items.drop_last()), items.last())
    }
}

/// The set of `items`.
pub fn to_set(items: &[String]) -> (r: TextSet)
    ensures
        r.wf(),
        r@ == set_of(text::views(items@)),
{
    let mut r = TextSet::new();
    let ghost all = text::views(items@);
    let n: usize = items.len();
    let mut i: usize = 0;
    assert(all.take(0) =~= Seq::<Seq<char>>::empty());
    while i < n
        invariant
            n == items@.len(),
            all == text::views(items@),
            i <= n,
            r.wf(),
            r@ == set_of(all.take(i as int)),
        decreases n - i,
    {
        assert(all.take(i + 1).drop_last() =~= all.take(i as int));
        assert(all.take(i + 1).last() == items@[i as int]@);
        r.insert(items[i].as_str());
        i += 1;
    }
    assert(all.take(n as int) =~= all);
    r
}

/// How two sets differ.
pub struct SetDiff {
    pub only_a: Vec<String>,
    pub only_b: Vec<String>,
    /// How many texts the first set has.
    pub size_a: usize,
}

impl SetDiff {
    /// What is only in one of the sets, and the size of the first.
    pub open spec fn is_between(&self, a: Seq<Seq<char>>, b: Seq<Seq<char>>) -> bool {
        &&& text::views(self.only_a@) == without(a, b)
        &&& text::views(self.only_b@) == without(b, a)
        &&& self.size_a == a.len()
    }

    /// Whether the sets have the same texts.
    pub fn is_equal(&self) -> (r: bool)
        ensures
            r == (self.only_a@.len() == 0 && self.only_b@.len() == 0),
    {
        self.only_a.len() == 0 && self.only_b.len() == 0
    }
}

/// How two sets differ.
pub fn diff_sets(a: &TextSet, b: &TextSet) -> (r: SetDiff)
    requires
        a.wf(),
        b.wf(),
    ensures
        r.is_between(a@, b@),
{
    let size_a: usize = a.items().len();
    SetDiff { only_a: texts_without(a, b), only_b: texts_without(b, a), size_a }
}

/// The sets have the same texts.
pub open spec fn same_set(a: Seq<Seq<char>>, b: Seq<Seq<char>>) -> bool {
    forall|s: Seq<char>| #[trigger] a.contains(s) <==> b.contains(s)
}

/// Sets differ in nothing exactly when they have the same texts.
pub proof fn law_no_difference_is_equality(a: Seq<Seq<char>>, b: Seq<Seq<char>>)
    ensures
        without(a, b).len() == 0 && without(b, a).len() == 0 <==> same_set(a, b),
{
    lemma_without_empty(a, b);
    lemma_without_empty(b, a);
}

proof fn lemma_without_empty(a: Seq<Seq<char>>, b: Seq<Seq<char>>)
    ensures
        without(a, b).len() == 0 <==> forall|s: Seq<char>| #[trigger] a.contains(s) ==> b.contains(
            s,
        ),
{
    let p = |s: Seq<char>| !b.contains(s);
    let w = a.filter(p);
    if w.len() == 0 {
        assert forall|s: Seq<char>| #[trigger] a.contains(s) implies b.contains(s) by {
            if !b.contains(s) {
                let k = choose|k: int| 0 <= k < a.len() && a[k] == s;
                a.lemma_filter_contains(p, k);
            }
        }
    } else {
        a.lemma_filter_contains_rev(p, w[0]);
        a.lemma_filter_pred(p, 0);
    }
}

/// The texts of a set that are not excluded, as a set.
fn set_without(a: &TextSet, b: &TextSet) -> (r: TextSet)
    requires
        b.wf(),
    ensures
        r.wf(),
        r@ == set_of(without(a@, b@)),
{
    to_set(&texts_without(a, b))
}

/// The paths in the store directory of `names`.
pub open spec fn in_store(store_dir: Seq<char>, names: Seq<Seq<char>>) -> Seq<Seq<char>> {
    names.map_values(|name: Seq<char>| store_dir + "/"@ + name)
}

fn paths_in_store(store_dir: &str, names: &[String]) -> (r: Vec<String>)
    ensures
        text::views(r@) == in_store(store_dir@, text::views(names@)),
{
    let mut r: Vec<String> = Vec::new();
    let n: usize = names.len();
    let mut i: usize = 0;
    while i < n
        invariant
            n == names@.len(),
            i <= n,
            r@.len() == i,
            forall|j: int|
                0 <= j < i ==> (#[trigger] r@[j])@ == store_dir@ + "/"@ + names@[j]@,
        decreases n - i,
    {
        let ghost was = r@;
        r.push(text::join3(store_dir, "/", names[i].as_str()));
        assert forall|j: int| 0 <= j < i + 1 implies (#[trigger] r@[j])@ == store_dir@ + "/"@
            + names@[j]@ by {
            if j < i {
                assert(r@[j] == was[j]);
            }
        }
        i += 1;
    }
    assert(text::views(r@) =~= in_store(store_dir@, text::views(names@)));
    r
}

/// The names that are judged apart.
pub open spec fn excluded(fx: CorruptionEffects) -> Seq<Seq<char>> {
    text::views(fx.junk@) + text::views(fx.deleted@)
}

fn excluded_names(fx: &CorruptionEffects) -> (r: Vec<String>)
    ensures
        text::views(r@) == excluded(*fx),
{
    let mut r = text::copy_texts(&fx.junk);
    let n: usize = fx.deleted.len();
    let mut i: usize = 0;
    assert(text::views(fx.deleted@).take(0) =~= Seq::<Seq<char>>::empty());
    assert(text::views(r@) =~= text::views(fx.junk@) + text::views(fx.deleted@).take(0));
    while i < n
        invariant
            n == fx.deleted@.len(),
            i <= n,
            text::views(r@) == text::views(fx.junk@) + text::views(fx.deleted@).take(i as int),
        decreases n - i,
    {
        let ghost was = r@;
        r.push(fx.deleted[i].clone());
        assert(text::views(r@) =~= text::views(was).push(fx.deleted@[i as int]@));
        assert(text::views(r@) =~= text::views(fx.junk@) + text::views(fx.deleted@).take(i + 1));
        i += 1;
    }
    assert(text::views(fx.deleted@).take(n as int) =~= text::views(fx.deleted@));
    r
}

/// The lines that are store paths; the others are for people to read.
pub fn dead_lines(lines: &[String], store_dir: &str) -> (r: Vec<String>)
    ensures
        text::views(r@) == text::views(lines@).filter(
            |s: Seq<char>| text::starts_with(s, store_dir@ + "/"@),
        ),
{
    let prefix = text::join(store_dir, "/");
    let ghost p = |s: Seq<char>| text::starts_with(s, store_dir@ + "/"@);
    let ghost all = text::views(lines@);
    let n: usize = lines.len();
    let mut r: Vec<String> = Vec::new();
    let mut i: usize = 0;
    proof {
        reveal(Seq::filter);
        assert(all.take(0).filter(p) =~= Seq::<Seq<char>>::empty());
        assert(text::views(r@) =~= Seq::<Seq<char>>::empty());
    }
    while i < n
        invariant
            n == lines@.len(),
            all == text::views(lines@),
            prefix@ == store_dir@ + "/"@,
            p == |s: Seq<char>| text::starts_with(s, store_dir@ + "/"@),
            i <= n,
            text::views(r@) == all.take(i as int).filter(p),
        decreases n - i,
    {
        let ghost was = r@;
        proof {
            assert(all.take(i + 1) =~= all.take(i as int).push(all[i as int]));
            all.take(i as int).lemma_filter_push(all[i as int], p);
        }
        match text::strip_prefix(lines[i].as_str(), prefix.as_str()) {
            Some(_) => {
                r.push(lines[i].clone());
                assert(text::views(r@) =~= text::views(was).push(all[i as int]));
            },
            None => {},
        }
        i += 1;
    }
    assert(all.take(n as int) =~= all);
    r
}

/// The names among `names` that are still on disk.
pub open spec fn kept_names(names: Seq<Seq<char>>, disk: Seq<Seq<char>>) -> Seq<Seq<char>> {
    names.filter(|s: Seq<char>| disk.contains(s))
}

fn kept_entries(names: &[String], disk: &TextSet) -> (r: Vec<String>)
    requires
        disk.wf(),
    ensures
        text::views(r@) == kept_names(text::views(names@), disk@),
{
    let ghost p = |s: Seq<char>| disk@.contains(s);
    let ghost all = text::views(names@);
    let n: usize = names.len();
    let mut r: Vec<String> = Vec::new();
    let mut i: usize = 0;
    proof {
        reveal(Seq::filter);
        assert(all.take(0).filter(p) =~= Seq::<Seq<char>>::empty());
        assert(text::views(r@) =~= Seq::<Seq<char>>::empty());
    }
    while i < n
        invariant
            disk.wf(),
            n == names@.len(),
            all == text::views(names@),
            p == |s: Seq<char>| disk@.contains(s),
            i <= n,
            text::views(r@) == all.take(i as int).filter(p),
        decreases n - i,
    {
        let ghost was = r@;
        proof {
            assert(all.take(i + 1) =~= all.take(i as int).push(all[i as int]));
            all.take(i as int).lemma_filter_push(all[i as int], p);
        }
        if disk.contains(names[i].as_str()) {
            r.push(names[i].clone());
            assert(text::views(r@) =~= text::views(was).push(all[i as int]));
        }
        i += 1;
    }
    assert(all.take(n as int) =~= all);
    r
}

/// What two collectors did to copies of one store.
pub struct Outcome {
    /// What each says is dead, without deleting it.
    pub nix_dead: TextSet,
    pub fast_dead: TextSet,
    /// The entries of the store that each left on disk.
    pub nix_disk: TextSet,
    pub fast_disk: TextSet,
    /// The valid paths that each left.
    pub nix_db: TextSet,
    pub fast_db: TextSet,
    /// The valid paths before.
    pub valid_before: TextSet,
}

impl Outcome {
    pub open spec fn wf(&self) -> bool {
        &&& self.nix_dead.wf()
        &&& self.fast_dead.wf()
        &&& self.nix_disk.wf()
        &&& self.fast_disk.wf()
        &&& self.nix_db.wf()
        &&& self.fast_db.wf()
        &&& self.valid_before.wf()
    }
}

/// Where two collectors disagree.
pub struct Verdict {
    /// Predictions.
    pub dead: SetDiff,
    /// Entries on disk afterwards.
    pub disk: SetDiff,
    /// Valid paths afterwards.
    pub db: SetDiff,
    /// Valid paths afterwards against what the prediction leaves.
    pub survivors: SetDiff,
    /// Damaged entries that each left on disk.
    pub nix_kept: Vec<String>,
    pub fast_kept: Vec<String>,
}

impl Verdict {
    /// The collectors agree.
    pub open spec fn agrees(&self) -> bool {
        &&& self.dead.only_a@.len() == 0 && self.dead.only_b@.len() == 0
        &&& self.disk.only_a@.len() == 0 && self.disk.only_b@.len() == 0
        &&& self.db.only_a@.len() == 0 && self.db.only_b@.len() == 0
        &&& self.survivors.only_a@.len() == 0 && self.survivors.only_b@.len() == 0
        &&& self.nix_kept@.len() == 0
        &&& self.fast_kept@.len() == 0
    }

    /// Whether the collectors agree.
    pub fn is_ok(&self) -> (r: bool)
        ensures
            r == self.agrees(),
    {
        self.dead.is_equal() && self.disk.is_equal() && self.db.is_equal()
            && self.survivors.is_equal() && self.nix_kept.len() == 0 && self.fast_kept.len() == 0
    }
}

/// The paths that are not judged apart.
pub fn undamaged(paths: &TextSet, fx: &CorruptionEffects, store_dir: &str) -> (r: TextSet)
    requires
        paths.wf(),
    ensures
        r.wf(),
        r@ == set_of(without(paths@, in_store(store_dir@, excluded(*fx)))),
{
    let damaged = to_set(&paths_in_store(store_dir, &excluded_names(fx)));
    proof {
        lemma_without_set(paths@, in_store(store_dir@, excluded(*fx)));
    }
    set_without(paths, &damaged)
}

/// Judge what two collectors did. What was damaged is left out of the
/// comparisons of sets; junk must be gone from disk, and what was removed from
/// disk must not come back.
pub fn compare_gc(outcome: &Outcome, fx: &CorruptionEffects, store_dir: &str) -> (r: Verdict)
    requires
        outcome.wf(),
    ensures
        ({
            let names = excluded(*fx);
            let paths = in_store(store_dir@, names);
            let nix_dead = without(outcome.nix_dead@, paths);
            &&& r.dead.is_between(
                set_of(nix_dead),
                set_of(without(outcome.fast_dead@, paths)),
            )
            &&& r.disk.is_between(
                set_of(without(outcome.nix_disk@, names)),
                set_of(without(outcome.fast_disk@, names)),
            )
            &&& r.db.is_between(
                set_of(without(outcome.nix_db@, paths)),
                set_of(without(outcome.fast_db@, paths)),
            )
            &&& r.survivors.is_between(
                set_of(without(set_of(without(outcome.valid_before@, nix_dead)), paths)),
                set_of(without(outcome.nix_db@, paths)),
            )
            &&& text::views(r.nix_kept@) == kept_names(names, outcome.nix_disk@)
            &&& text::views(r.fast_kept@) == kept_names(names, outcome.fast_disk@)
        }),
{
    let names = excluded_names(fx);
    let name_set = to_set(&names);
    let path_set = to_set(&paths_in_store(store_dir, &names));
    proof {
        lemma_without_set(outcome.nix_dead@, in_store(store_dir@, excluded(*fx)));
        lemma_without_set(outcome.fast_dead@, in_store(store_dir@, excluded(*fx)));
        lemma_without_set(outcome.nix_disk@, excluded(*fx));
        lemma_without_set(outcome.fast_disk@, excluded(*fx));
        lemma_without_set(outcome.nix_db@, in_store(store_dir@, excluded(*fx)));
        lemma_without_set(outcome.fast_db@, in_store(store_dir@, excluded(*fx)));
        let paths = in_store(store_dir@, excluded(*fx));
        let dead = without(outcome.nix_dead@, paths);
        lemma_without_set(outcome.valid_before@, dead);
        lemma_without_set(set_of(without(outcome.valid_before@, dead)), paths);
    }
    let nix_dead = set_without(&outcome.nix_dead, &path_set);
    let nix_db = set_without(&outcome.nix_db, &path_set);
    let left = set_without(&outcome.valid_before, &nix_dead);
    Verdict {
        dead: diff_sets(&nix_dead, &set_without(&outcome.fast_dead, &path_set)),
        disk: diff_sets(
            &set_without(&outcome.nix_disk, &name_set),
            &set_without(&outcome.fast_disk, &name_set),
        ),
        db: diff_sets(&nix_db, &set_without(&outcome.fast_db, &path_set)),
        survivors: diff_sets(&set_without(&left, &path_set), &nix_db),
        nix_kept: kept_entries(&names, &outcome.nix_disk),
        fast_kept: kept_entries(&names, &outcome.fast_disk),
    }
}

proof fn lemma_set_of(items: Seq<Seq<char>>, s: Seq<char>)
    ensures
        set_of(items).contains(s) <==> items.contains(s),
    decreases items.len(),
{
    if items.len() > 0 {
        let init = items.drop_last();
        lemma_set_of(init, s);
        text_set::lemma_with_item(set_of(init), items.last(), s);
        if items.contains(s) && s != items.last() {
            let k = choose|k: int| 0 <= k < items.len() && items[k] == s;
            assert(init[k] == s);
        }
        if init.contains(s) {
            let k = choose|k: int| 0 <= k < init.len() && init[k] == s;
            assert(items[k] == s);
        }
    }
}

proof fn lemma_without_set(a: Seq<Seq<char>>, b: Seq<Seq<char>>)
    ensures
        without(a, set_of(b)) == without(a, b),
{
    let p = |s: Seq<char>| !set_of(b).contains(s);
    let q = |s: Seq<char>| !b.contains(s);
    assert forall|s: Seq<char>| #[trigger] p(s) == q(s) by {
        lemma_set_of(b, s);
    }
    assert(p =~= q);
}

/// What one collector did to a damaged store that the other one refuses.
pub struct LoneOutcome {
    pub valid_before: TextSet,
    pub dead: TextSet,
    pub db_after: TextSet,
    pub disk_after: TextSet,
}

impl LoneOutcome {
    pub open spec fn wf(&self) -> bool {
        &&& self.valid_before.wf()
        &&& self.dead.wf()
        &&& self.db_after.wf()
        &&& self.disk_after.wf()
    }
}

/// Where a collector contradicts itself.
pub struct LoneVerdict {
    /// Valid paths afterwards against what its prediction leaves.
    pub db: SetDiff,
    /// Entries on disk against valid paths.
    pub disk: SetDiff,
    /// Damaged entries that it left on disk.
    pub kept: Vec<String>,
}

impl LoneVerdict {
    /// Whether the collector did as it said.
    pub fn is_ok(&self) -> (r: bool)
        ensures
            r == (self.db.only_a@.len() == 0 && self.db.only_b@.len() == 0
                && self.disk.only_a@.len() == 0 && self.disk.only_b@.len() == 0 && self.kept@.len()
                == 0),
    {
        self.db.is_equal() && self.disk.is_equal() && self.kept.len() == 0
    }
}

/// The names of the paths that lie in the store directory, in order.
pub open spec fn names_in_store(paths: Seq<Seq<char>>, store_dir: Seq<char>) -> Seq<Seq<char>>
    decreases paths.len(),
{
    if paths.len() == 0 {
        Seq::empty()
    } else {
        let rest = names_in_store(paths.drop_last(), store_dir);
        match text::after_prefix(paths.last(), store_dir + "/"@) {
            Some(name) => rest.push(name),
            None => rest,
        }
    }
}

fn store_names(paths: &[String], store_dir: &str) -> (r: Vec<String>)
    ensures
        text::views(r@) == names_in_store(text::views(paths@), store_dir@),
{
    let prefix = text::join(store_dir, "/");
    let ghost all = text::views(paths@);
    let n: usize = paths.len();
    let mut r: Vec<String> = Vec::new();
    let mut i: usize = 0;
    proof {
        assert(all.take(0) =~= Seq::<Seq<char>>::empty());
        assert(text::views(r@) =~= Seq::<Seq<char>>::empty());
    }
    while i < n
        invariant
            n == paths@.len(),
            all == text::views(paths@),
            prefix@ == store_dir@ + "/"@,
            i <= n,
            text::views(r@) == names_in_store(all.take(i as int), store_dir@),
        decreases n - i,
    {
        let ghost was = r@;
        proof {
            assert(all.take(i + 1).drop_last() =~= all.take(i as int));
            assert(all.take(i + 1).last() == paths@[i as int]@);
        }
        match text::strip_prefix(paths[i].as_str(), prefix.as_str()) {
            Some(name) => {
                r.push(name);
                assert(text::views(r@) =~= text::views(was).push(name@));
            },
            None => {},
        }
        i += 1;
    }
    assert(all.take(n as int) =~= all);
    r
}

/// Judge a collector by itself: it must do as it predicted, and disk must
/// mirror the database, but for what was removed from disk beforehand.
pub fn validate_alone(outcome: &LoneOutcome, fx: &CorruptionEffects, store_dir: &str) -> (r:
    LoneVerdict)
    requires
        outcome.wf(),
    ensures
        r.db.is_between(
            set_of(without(outcome.valid_before@, outcome.dead@)),
            outcome.db_after@,
        ),
        r.disk.is_between(
            set_of(
                without(
                    set_of(names_in_store(outcome.db_after@, store_dir@)),
                    text::views(fx.deleted@),
                ),
            ),
            set_of(without(outcome.disk_after@, text::views(fx.deleted@))),
        ),
        text::views(r.kept@) == kept_names(excluded(*fx), outcome.disk_after@),
{
    let deleted = to_set(&fx.deleted);
    let names = to_set(&store_names(outcome.db_after.items(), store_dir));
    proof {
        lemma_without_set(names@, text::views(fx.deleted@));
        lemma_without_set(outcome.disk_after@, text::views(fx.deleted@));
    }
    LoneVerdict {
        db: diff_sets(&set_without(&outcome.valid_before, &outcome.dead), &outcome.db_after),
        disk: diff_sets(
            &set_without(&names, &deleted),
            &set_without(&outcome.disk_after, &deleted),
        ),
        kept: kept_entries(&excluded_names(fx), &outcome.disk_after),
    }
}

/// Every kind of damage has one draw.
pub proof fn law_every_damage_is_drawn(op: Corruption, j: int, k: int)
    ensures
        exists|d: int| 0 <= d < 7 && #[trigger] drawn_corruption(d) == op,
        0 <= j < 7 && 0 <= k < 7 && drawn_corruption(j) == drawn_corruption(k) ==> j == k,
        CORRUPTION_DRAWS == 7,
{
    assert(drawn_corruption(0) == Corruption::DeleteOnDisk);
    assert(drawn_corruption(1) == Corruption::JunkDir);
    assert(drawn_corruption(2) == Corruption::JunkFile);
    assert(drawn_corruption(3) == Corruption::JunkFileBadName);
    assert(drawn_corruption(4) == Corruption::DanglingRoot);
    assert(drawn_corruption(5) == Corruption::OutsideRoot);
    assert(drawn_corruption(6) == Corruption::StaleTempRoot);
}

/// Junk looks like a store path: whatever the number, its name is recognised as
/// one in every store directory.
pub proof fn law_junk_looks_like_store_paths(i: u32, suffix: Seq<char>, dir: Seq<char>)
    requires
        forall|k: int| 0 <= k < suffix.len() ==> roots::is_path_char(#[trigger] suffix[k]),
    ensures
        roots::is_basename(junk_name(i, suffix)),
        roots::store_path_of(dir, dir.push('/') + junk_name(i, suffix)) == Some(
            dir.push('/') + junk_name(i, suffix),
        ),
{
    reveal_strlit("zzzzzzzzzzzzzzzzzzzzzzzzzzzzzzz");
    reveal_strlit("-");
    let name = junk_name(i, suffix);
    let digit = numbers::decimal((i % 10) as int);
    let number = numbers::decimal(i as int);
    numbers::lemma_decimal((i % 10) as int);
    numbers::lemma_decimal(i as int);
    assert(digit.len() == 1);
    assert forall|k: int| 0 <= k < 32 implies roots::is_hash_char(#[trigger] name[k]) by {
        if k < 31 {
            assert(name[k] == filler()[k]);
        } else {
            assert(name[k] == digit[0]);
        }
    }
    assert(name[32] == "-"@[0]);
    assert forall|k: int| 33 <= k < name.len() implies roots::is_path_char(#[trigger] name[k]) by {
        if k < 33 + suffix.len() {
            assert(name[k] == suffix[k - 33]);
        } else {
            assert(name[k] == number[k - 33 - suffix.len()]);
        }
    }
    let none: Seq<char> = Seq::empty();
    roots::law_deeper_paths_belong(dir, name, none);
    assert(dir.push('/') + name + none =~= dir.push('/') + name);
}

/// A damage that needs an entry does nothing where there is none, and never
/// touches another entry than the one that was drawn. A dangling root points to
/// what looks like a store path, and a file that is no store path is made under
/// a name that does not look like one.
pub proof fn law_damages_do_what_they_are_called(
    i: u32,
    entries: Seq<Seq<char>>,
    pick: int,
    dir: Seq<char>,
)
    requires
        entries.len() > 0 ==> 0 <= pick < entries.len(),
    ensures
        ({
            let plan = |op: Corruption| corruption_plan(op, i, entries, pick, dir);
            &&& entries.len() == 0 ==> plan(Corruption::DeleteOnDisk) is Nothing && plan(
                Corruption::StaleTempRoot,
            ) is Nothing
            &&& entries.len() > 0 ==> plan(Corruption::DeleteOnDisk) == CorruptionPlan::Remove(
                entries[pick],
            )
            &&& plan(Corruption::JunkDir) matches CorruptionPlan::MakeDir(name)
                && roots::is_basename(name)
            &&& plan(Corruption::JunkFile) matches CorruptionPlan::MakeFile(name)
                && roots::is_basename(name)
            &&& plan(Corruption::JunkFileBadName) matches CorruptionPlan::MakeFile(name)
                && !roots::is_basename(name)
            &&& plan(Corruption::DanglingRoot) matches CorruptionPlan::LinkRoot(_, target)
                && roots::store_path_of(dir, target) == Some(target)
            &&& plan(Corruption::OutsideRoot) is LinkOutside
            &&& entries.len() > 0 ==> (plan(Corruption::StaleTempRoot)
                matches CorruptionPlan::WriteTempRoots(name, contents) && numbers::all_digits(name)
                && name.len() > 0 && contents == dir + seq!['/'] + entries[pick] + seq!['\0'])
        }),
{
    reveal_strlit("junkdir");
    reveal_strlit("junkfile");
    reveal_strlit("missing");
    reveal_strlit("junkfile-");
    reveal_strlit("/");
    reveal_strlit("\0");
    law_junk_looks_like_store_paths(i, "junkdir"@, dir);
    law_junk_looks_like_store_paths(i, "junkfile"@, dir);
    law_junk_looks_like_store_paths(i, "missing"@, dir);
    let bad = "junkfile-"@ + numbers::decimal(i as int);
    assert(bad[8] == '-');
    if roots::is_basename(bad) {
        assert(roots::is_hash_char(bad[8]));
    }
    assert("/"@ =~= seq!['/']);
    assert("\0"@ =~= seq!['\0']);
    assert(dir + "/"@ + junk_name(i, "missing"@) =~= dir.push('/') + junk_name(i, "missing"@));
    numbers::lemma_decimal(4000000 + i);
}

/// Shared files and locks do not count, whatever is locked, and everything else
/// does.
pub proof fn law_locks_do_not_count(stem: Seq<char>, name: Seq<char>)
    ensures
        !listed(stem + ".lock"@),
        !listed(".links"@),
        !listed(".gc-lock"@),
        !listed(name) ==> name == ".links"@ || name == ".gc-lock"@ || exists|s: Seq<char>|
            name == #[trigger] (s + ".lock"@),
{
    text::law_affixes_come_off(stem + ".lock"@, ".lock"@, stem);
    text::law_affixes_come_off(name, ".lock"@, stem);
}

/// What is in one set without another is in the one and not in the other; what
/// is kept of names is on disk; a set has the texts that it was made of; and a
/// path lies in the store under its name.
pub proof fn law_sets_hold_their_texts(
    a: Seq<Seq<char>>,
    b: Seq<Seq<char>>,
    dir: Seq<char>,
    s: Seq<char>,
)
    ensures
        without(a, b).contains(s) <==> a.contains(s) && !b.contains(s),
        kept_names(a, b).contains(s) <==> a.contains(s) && b.contains(s),
        set_of(a).contains(s) <==> a.contains(s),
        set_of(a).no_duplicates(),
        in_store(dir, a).contains(dir + seq!['/'] + s) <==> a.contains(s),
        names_in_store(a, dir).contains(s) <==> a.contains(dir + seq!['/'] + s),
{
    lemma_filter_texts(a, |t: Seq<char>| !b.contains(t), s);
    lemma_filter_texts(a, |t: Seq<char>| b.contains(t), s);
    lemma_set_of(a, s);
    lemma_set_once(a);
    reveal_strlit("/");
    assert("/"@ =~= seq!['/']);
    let path = dir + seq!['/'] + s;
    let all = in_store(dir, a);
    if all.contains(path) {
        let k = choose|k: int| 0 <= k < all.len() && all[k] == path;
        assert(all[k] == dir + "/"@ + a[k]);
        assert(path.skip(dir.len() as int + 1) =~= s);
        assert((dir + "/"@ + a[k]).skip(dir.len() as int + 1) =~= a[k]);
        assert(a[k] == s);
    }
    if a.contains(s) {
        let k = choose|k: int| 0 <= k < a.len() && a[k] == s;
        assert(all[k] == path);
    }
    lemma_names_in_store(a, dir, s);
}

proof fn lemma_filter_texts(a: Seq<Seq<char>>, p: spec_fn(Seq<char>) -> bool, s: Seq<char>)
    ensures
        a.filter(p).contains(s) <==> a.contains(s) && p(s),
{
    if a.filter(p).contains(s) {
        a.lemma_filter_contains_rev(p, s);
    }
    if a.contains(s) && p(s) {
        let k = choose|k: int| 0 <= k < a.len() && a[k] == s;
        a.lemma_filter_contains(p, k);
    }
}

proof fn lemma_set_once(items: Seq<Seq<char>>)
    ensures
        set_of(items).no_duplicates(),
    decreases items.len(),
{
    if items.len() > 0 {
        lemma_set_once(items.drop_last());
        let was = set_of(items.drop_last());
        let now = set_of(items);
        if !was.contains(items.last()) {
            assert forall|i: int, j: int| 0 <= i < j < now.len() implies now[i] != now[j] by {
                assert(was.contains(was[i]));
            }
        }
    }
}

proof fn lemma_names_in_store(paths: Seq<Seq<char>>, dir: Seq<char>, s: Seq<char>)
    ensures
        names_in_store(paths, dir).contains(s) <==> paths.contains(dir + "/"@ + s),
    decreases paths.len(),
{
    let path = dir + "/"@ + s;
    if paths.len() > 0 {
        let init = paths.drop_last();
        let last = paths.last();
        let rest = names_in_store(init, dir);
        let all = names_in_store(paths, dir);
        lemma_names_in_store(init, dir, s);
        crate::graph::lemma_prefix_joins(last, dir + "/"@, s);
        if all.contains(s) {
            let k = choose|k: int| 0 <= k < all.len() && all[k] == s;
            if k < rest.len() {
                assert(rest[k] == s);
                let j = choose|j: int| 0 <= j < init.len() && init[j] == path;
                assert(paths[j] == path);
            } else {
                assert(paths[paths.len() - 1] == path);
            }
        }
        if paths.contains(path) {
            let j = choose|j: int| 0 <= j < paths.len() && paths[j] == path;
            if j < init.len() {
                assert(init[j] == path);
                let k = choose|k: int| 0 <= k < rest.len() && rest[k] == s;
                assert(all[k] == s);
            } else {
                assert(all[all.len() - 1] == s);
            }
        }
    }
}

/// Collectors that agree say the same of every path that was not damaged, leave
/// the same such entries on disk and the same such paths valid, those that were
/// valid and not called dead, and neither leaves a damaged entry on disk.
pub proof fn law_agreement_leaves_nothing_open(
    verdict: Verdict,
    outcome: Outcome,
    fx: CorruptionEffects,
    dir: Seq<char>,
    p: Seq<char>,
    name: Seq<char>,
)
    requires
        verdict.agrees(),
        ({
            let names = excluded(fx);
            let paths = in_store(dir, names);
            let nix_dead = without(outcome.nix_dead@, paths);
            &&& verdict.dead.is_between(
                set_of(nix_dead),
                set_of(without(outcome.fast_dead@, paths)),
            )
            &&& verdict.disk.is_between(
                set_of(without(outcome.nix_disk@, names)),
                set_of(without(outcome.fast_disk@, names)),
            )
            &&& verdict.db.is_between(
                set_of(without(outcome.nix_db@, paths)),
                set_of(without(outcome.fast_db@, paths)),
            )
            &&& verdict.survivors.is_between(
                set_of(without(set_of(without(outcome.valid_before@, nix_dead)), paths)),
                set_of(without(outcome.nix_db@, paths)),
            )
            &&& text::views(verdict.nix_kept@) == kept_names(names, outcome.nix_disk@)
            &&& text::views(verdict.fast_kept@) == kept_names(names, outcome.fast_disk@)
        }),
    ensures
        !in_store(dir, excluded(fx)).contains(p) ==> {
            &&& outcome.nix_dead@.contains(p) <==> outcome.fast_dead@.contains(p)
            &&& outcome.nix_db@.contains(p) <==> outcome.fast_db@.contains(p)
            &&& outcome.nix_db@.contains(p) <==> outcome.valid_before@.contains(p)
                && !outcome.nix_dead@.contains(p)
        },
        !excluded(fx).contains(name) ==> (outcome.nix_disk@.contains(name)
            <==> outcome.fast_disk@.contains(name)),
        excluded(fx).contains(name) ==> !outcome.nix_disk@.contains(name)
            && !outcome.fast_disk@.contains(name),
{
    let names = excluded(fx);
    let paths = in_store(dir, names);
    let nix_dead = without(outcome.nix_dead@, paths);
    let left = without(outcome.valid_before@, nix_dead);
    lemma_agree(verdict.dead, nix_dead, without(outcome.fast_dead@, paths), p);
    lemma_agree(
        verdict.disk,
        without(outcome.nix_disk@, names),
        without(outcome.fast_disk@, names),
        name,
    );
    lemma_agree(
        verdict.db,
        without(outcome.nix_db@, paths),
        without(outcome.fast_db@, paths),
        p,
    );
    lemma_agree(
        verdict.survivors,
        without(set_of(left), paths),
        without(outcome.nix_db@, paths),
        p,
    );
    law_sets_hold_their_texts(outcome.nix_dead@, paths, dir, p);
    law_sets_hold_their_texts(outcome.fast_dead@, paths, dir, p);
    law_sets_hold_their_texts(outcome.nix_db@, paths, dir, p);
    law_sets_hold_their_texts(outcome.fast_db@, paths, dir, p);
    law_sets_hold_their_texts(outcome.valid_before@, nix_dead, dir, p);
    law_sets_hold_their_texts(left, paths, dir, p);
    law_sets_hold_their_texts(set_of(left), paths, dir, p);
    law_sets_hold_their_texts(outcome.nix_disk@, names, dir, name);
    law_sets_hold_their_texts(outcome.fast_disk@, names, dir, name);
    law_sets_hold_their_texts(names, outcome.nix_disk@, dir, name);
    law_sets_hold_their_texts(names, outcome.fast_disk@, dir, name);
    assert(text::views(verdict.nix_kept@).len() == 0);
    assert(text::views(verdict.fast_kept@).len() == 0);
}

proof fn lemma_agree(diff: SetDiff, a: Seq<Seq<char>>, b: Seq<Seq<char>>, s: Seq<char>)
    requires
        diff.is_between(set_of(a), set_of(b)),
        diff.only_a@.len() == 0,
        diff.only_b@.len() == 0,
    ensures
        a.contains(s) <==> b.contains(s),
{
    assert(text::views(diff.only_a@).len() == 0);
    assert(text::views(diff.only_b@).len() == 0);
    law_no_difference_is_equality(set_of(a), set_of(b));
    lemma_set_of(a, s);
    lemma_set_of(b, s);
}

/// Junk and what was removed are judged apart, and nothing else is.
pub proof fn law_damaged_names_are_judged_apart(fx: CorruptionEffects, name: Seq<char>)
    ensures
        excluded(fx).contains(name) <==> text::views(fx.junk@).contains(name) || text::views(
            fx.deleted@,
        ).contains(name),
{
    let junk = text::views(fx.junk@);
    let deleted = text::views(fx.deleted@);
    let all = excluded(fx);
    if all.contains(name) {
        let k = choose|k: int| 0 <= k < all.len() && all[k] == name;
        if k < junk.len() {
            assert(junk[k] == name);
        } else {
            assert(deleted[k - junk.len()] == name);
        }
    }
    if junk.contains(name) {
        let k = choose|k: int| 0 <= k < junk.len() && junk[k] == name;
        assert(all[k] == name);
    }
    if deleted.contains(name) {
        let k = choose|k: int| 0 <= k < deleted.len() && deleted[k] == name;
        assert(all[junk.len() + k] == name);
    }
}

} // verus!
