//! Profile generations: which of them go, and how old they must be.
use crate::db;
use crate::graph;
use crate::numbers;
use crate::paths;
use crate::text;
use vstd::prelude::*;
use vstd::utf8;

verus! {

/// Why a time spec was rejected.
#[derive(Clone, Copy, PartialEq, Eq, Structural)]
pub enum TimeSpecError {
    /// It has fewer than two bytes.
    TooShort,
    /// What precedes the unit is no number.
    InvalidNumber,
    /// The unit is none of h, d, w, m.
    UnknownUnit,
}

/// Seconds in a unit of time.
pub open spec fn unit_seconds(unit: char) -> Option<int> {
    match unit {
        'h' => Some(3600),
        'd' => Some(86400),
        'w' => Some(604800),
        'm' => Some(2592000),
        _ => None,
    }
}

/// The seconds that a time spec stands for.
pub open spec fn seconds_of(spec: Seq<char>) -> Result<int, TimeSpecError> {
    if utf8::encode_utf8(spec).len() < 2 {
        Err(TimeSpecError::TooShort)
    } else {
        match numbers::number(spec.drop_last()) {
            None => Err(TimeSpecError::InvalidNumber),
            Some(n) => match unit_seconds(spec.last()) {
                None => Err(TimeSpecError::UnknownUnit),
                Some(secs) => Ok(n * secs),
            },
        }
    }
}

/// The spec ends in an ASCII character, if it is not too short anyway, and the
/// seconds that it stands for fit in 64 bits.
pub open spec fn is_measurable(spec: Seq<char>) -> bool {
    &&& utf8::encode_utf8(spec).len() < 2 || spec.last() <= '\u{7f}'
    &&& seconds_of(spec) matches Ok(secs) ==> secs <= u64::MAX
}

/// True when `parse_older_than` can take the spec.
pub fn time_spec_fits(spec: &str) -> (r: bool)
    ensures
        r == is_measurable(spec@),
{
    let x = text::chars_of(spec);
    if spec.as_bytes().len() < 2 {
        return true;
    }
    proof {
        assert(x@.len() > 0);
    }
    let last: char = x[x.len() - 1];
    if last > '\u{7f}' {
        return false;
    }
    let digits = text::text_of(&x, 0, x.len() - 1);
    assert(digits@ =~= spec@.drop_last());
    match numbers::parse_u64(digits.as_str()) {
        None => true,
        Some(n) => {
            match last {
                'h' => n <= u64::MAX / 3600,
                'd' => n <= u64::MAX / 86400,
                'w' => n <= u64::MAX / 604800,
                'm' => n <= u64::MAX / 2592000,
                _ => true,
            }
        },
    }
}

/// Parse time specs like "30d", "4h", "2w", "1m" into seconds: how long ago the
/// cutoff lies.
pub fn parse_older_than(spec: &str) -> (r: Result<u64, TimeSpecError>)
    requires
        is_measurable(spec@),
    ensures
        match r {
            Ok(secs) => seconds_of(spec@) == Ok::<int, TimeSpecError>(secs as int),
            Err(e) => seconds_of(spec@) == Err::<int, TimeSpecError>(e),
        },
{
    let x = text::chars_of(spec);
    if spec.as_bytes().len() < 2 {
        return Err(TimeSpecError::TooShort);
    }
    proof {
        assert(x@.len() > 0);
    }
    let last: char = x[x.len() - 1];
    let digits = text::text_of(&x, 0, x.len() - 1);
    assert(digits@ =~= spec@.drop_last());
    match numbers::parse_u64(digits.as_str()) {
        None => Err(TimeSpecError::InvalidNumber),
        Some(n) => match last {
            'h' => Ok(n * 3600),
            'd' => Ok(n * 86400),
            'w' => Ok(n * 604800),
            'm' => Ok(n * 2592000),
            _ => Err(TimeSpecError::UnknownUnit),
        },
    }
}

/// The generation that a link of `profile` is: `<profile>-<number>-link`.
pub open spec fn generation(name: Seq<char>, profile: Seq<char>) -> Option<u64> {
    match text::after_prefix(name, profile.push('-')) {
        Some(rest) => match text::before_suffix(rest, "-link"@) {
            Some(num) => numbers::number(num),
            None => None,
        },
        None => None,
    }
}

/// The generation that a link of `profile` is. For the name that the profile
/// itself points at, this is the current generation.
pub fn generation_of(name: &str, profile: &str) -> (r: Option<u64>)
    ensures
        r == generation(name@, profile@),
{
    let mut prefix = profile.to_owned();
    prefix.push('-');
    match text::strip_prefix(name, prefix.as_str()) {
        Some(rest) => match text::strip_suffix(rest.as_str(), "-link") {
            Some(num) => numbers::parse_u64(num.as_str()),
            None => None,
        },
        None => None,
    }
}

/// A generation link: its place among the entries of the directory, and the
/// number of the generation.
#[derive(Clone, Copy, PartialEq, Eq, Structural)]
pub struct Generation {
    pub entry: usize,
    pub number: u64,
}

/// `gens` holds the generation links of `profile` among `names`, by number, and
/// those of one number in the order of the entries.
pub open spec fn lists_generations(
    gens: Seq<Generation>,
    names: Seq<Seq<char>>,
    profile: Seq<char>,
) -> bool {
    &&& forall|k: int|
        0 <= k < gens.len() ==> (#[trigger] gens[k]).entry < names.len() && generation(
            names[gens[k].entry as int],
            profile,
        ) == Some(gens[k].number)
    &&& forall|i: int|
        0 <= i < names.len() && generation(#[trigger] names[i], profile) is Some ==> has_entry(
            gens,
            i,
        )
    &&& forall|a: int, b: int|
        0 <= a < b < gens.len() ==> precedes(#[trigger] gens[a], #[trigger] gens[b])
}

/// The entry `i` is among `gens`.
pub open spec fn has_entry(gens: Seq<Generation>, i: int) -> bool {
    exists|k: int| 0 <= k < gens.len() && (#[trigger] gens[k]).entry == i
}

/// The order of generations.
pub open spec fn precedes(a: Generation, b: Generation) -> bool {
    a.number < b.number || (a.number == b.number && a.entry < b.entry)
}

/// Find the generation links of `profile` among the names of a directory.
pub fn find_generation_links(names: &[String], profile: &str) -> (gens: Vec<Generation>)
    ensures
        lists_generations(gens@, text::views(names@), profile@),
{
    let ghost all = text::views(names@);
    let mut gens: Vec<Generation> = Vec::new();
    let mut i: usize = 0;
    assert(all.take(0) =~= Seq::empty());
    while i < names.len()
        invariant
            all == text::views(names@),
            i <= names@.len(),
            lists_generations(gens@, all.take(i as int), profile@),
        decreases names@.len() - i,
    {
        let ghost was = all.take(i as int);
        let ghost now = all.take(i + 1);
        let ghost before = gens@;
        assert(all[i as int] == names@[i as int]@);
        assert(now.drop_last() =~= was);
        if let Some(number) = generation_of(names[i].as_str(), profile) {
            let mut pos: usize = gens.len();
            while pos > 0 && gens[pos - 1].number > number
                invariant
                    gens@ == before,
                    pos <= gens@.len(),
                    lists_generations(gens@, was, profile@),
                    was.len() == i,
                    forall|k: int| pos <= k < gens@.len() ==> (#[trigger] gens@[k]).number
                        > number,
                decreases pos,
            {
                pos -= 1;
            }
            let new = Generation { entry: i, number };
            gens.insert(pos, new);
            proof {
                assert(gens@ == before.insert(pos as int, new));
                lemma_listed_insert(before, was, now, profile@, pos as int, new);
            }
        } else {
            proof {
                lemma_listed_skip(before, was, now, profile@);
            }
        }
        i += 1;
    }
    assert(all.take(i as int) =~= all);
    gens
}

/// A generation link behind those listed so far is listed once it is inserted
/// behind all of a lower or equal number.
proof fn lemma_listed_insert(
    before: Seq<Generation>,
    was: Seq<Seq<char>>,
    now: Seq<Seq<char>>,
    profile: Seq<char>,
    pos: int,
    new: Generation,
)
    requires
        lists_generations(before, was, profile),
        now.len() == was.len() + 1,
        now.drop_last() == was,
        new.entry == was.len(),
        generation(now[new.entry as int], profile) == Some(new.number),
        0 <= pos <= before.len(),
        forall|k: int| pos <= k < before.len() ==> (#[trigger] before[k]).number > new.number,
        pos > 0 ==> before[pos - 1].number <= new.number,
    ensures
        lists_generations(before.insert(pos, new), now, profile),
{
    let gens = before.insert(pos, new);
    assert forall|k: int| 0 <= k < gens.len() implies (#[trigger] gens[k]).entry < now.len()
        && generation(now[gens[k].entry as int], profile) == Some(gens[k].number) by {
        if k < pos {
            assert(gens[k] == before[k]);
            assert(now[before[k].entry as int] == was[before[k].entry as int]);
        } else if k > pos {
            assert(gens[k] == before[k - 1]);
            assert(now[before[k - 1].entry as int] == was[before[k - 1].entry as int]);
        }
    }
    lemma_insert_ordered(before, pos, new);
    assert forall|j: int|
        0 <= j < now.len() && generation(#[trigger] now[j], profile) is Some implies has_entry(
        gens,
        j,
    ) by {
        if j < was.len() {
            assert(was[j] == now[j]);
            assert(has_entry(before, j));
        }
        lemma_insert_entry(before, pos, new, j);
    }
}

proof fn lemma_insert_entry(before: Seq<Generation>, pos: int, new: Generation, j: int)
    requires
        0 <= pos <= before.len(),
        has_entry(before, j) || new.entry == j,
    ensures
        has_entry(before.insert(pos, new), j),
{
    let gens = before.insert(pos, new);
    if has_entry(before, j) {
        let k = choose|k: int| 0 <= k < before.len() && (#[trigger] before[k]).entry == j;
        if k < pos {
            assert(gens[k].entry == j);
        } else {
            assert(gens[k + 1].entry == j);
        }
    } else {
        assert(gens[pos].entry == j);
    }
}

proof fn lemma_insert_ordered(before: Seq<Generation>, pos: int, new: Generation)
    requires
        0 <= pos <= before.len(),
        forall|a: int, b: int|
            0 <= a < b < before.len() ==> precedes(#[trigger] before[a], #[trigger] before[b]),
        forall|k: int| 0 <= k < before.len() ==> (#[trigger] before[k]).entry < new.entry,
        forall|k: int| pos <= k < before.len() ==> (#[trigger] before[k]).number > new.number,
        pos > 0 ==> before[pos - 1].number <= new.number,
    ensures
        forall|a: int, b: int|
            0 <= a < b < before.len() + 1 ==> precedes(
                #[trigger] before.insert(pos, new)[a],
                #[trigger] before.insert(pos, new)[b],
            ),
{
    let gens = before.insert(pos, new);
    assert forall|a: int, b: int| 0 <= a < b < gens.len() implies precedes(
        #[trigger] gens[a],
        #[trigger] gens[b],
    ) by {
        if b < pos {
            assert(precedes(before[a], before[b]));
        } else if b == pos {
            assert(gens[a] == before[a]);
            if a < pos - 1 {
                assert(precedes(before[a], before[pos - 1]));
            }
        } else if a < pos {
            assert(gens[b] == before[b - 1]);
            assert(precedes(before[a], before[b - 1]));
        } else if a == pos {
            assert(gens[b] == before[b - 1]);
        } else {
            assert(gens[a] == before[a - 1]);
            assert(gens[b] == before[b - 1]);
            assert(precedes(before[a - 1], before[b - 1]));
        }
    }
}

/// A name that is no generation link adds nothing.
proof fn lemma_listed_skip(
    gens: Seq<Generation>,
    was: Seq<Seq<char>>,
    now: Seq<Seq<char>>,
    profile: Seq<char>,
)
    requires
        lists_generations(gens, was, profile),
        now.len() == was.len() + 1,
        now.drop_last() == was,
        generation(now.last(), profile) is None,
    ensures
        lists_generations(gens, now, profile),
{
    assert forall|k: int| 0 <= k < gens.len() implies (#[trigger] gens[k]).entry < now.len()
        && generation(now[gens[k].entry as int], profile) == Some(gens[k].number) by {
        assert(now[gens[k].entry as int] == was[gens[k].entry as int]);
    }
    assert forall|j: int|
        0 <= j < now.len() && generation(#[trigger] now[j], profile) is Some implies has_entry(
        gens,
        j,
    ) by {
        if j < was.len() {
            assert(was[j] == now[j]);
            assert(has_entry(gens, j));
        }
    }
}

/// All generations but the current one go. If the current one is unknown,
/// nothing goes: the active system could be among them.
pub open spec fn is_old(current: Option<u64>, g: Generation) -> bool {
    current is Some && g.number != current->0
}

/// Choose the generations that go when all but the current one do.
pub fn old_generations(gens: &[Generation], current: Option<u64>) -> (r: Vec<Generation>)
    ensures
        r@ == gens@.filter(|g: Generation| is_old(current, g)),
{
    let ghost old_one = |g: Generation| is_old(current, g);
    let mut r: Vec<Generation> = Vec::new();
    let mut i: usize = 0;
    proof {
        assert(gens@.take(0).filter(old_one) =~= Seq::empty()) by {
            reveal(Seq::filter);
        }
    }
    while i < gens.len()
        invariant
            old_one == (|g: Generation| is_old(current, g)),
            i <= gens@.len(),
            r@ == gens@.take(i as int).filter(old_one),
        decreases gens@.len() - i,
    {
        let g = gens[i];
        proof {
            assert(gens@.take(i + 1) =~= gens@.take(i as int).push(g));
            gens@.take(i as int).lemma_filter_push(g, old_one);
        }
        if let Some(c) = current {
            if g.number != c {
                r.push(g);
            }
        }
        i += 1;
    }
    assert(gens@.take(i as int) =~= gens@);
    r
}

/// The generation was made before `cutoff`.
pub open spec fn is_older(mtime: Option<i128>, cutoff: i128) -> bool {
    mtime is Some && mtime->0 < cutoff
}

/// The number of the newest generation made before `cutoff`: the one that was
/// active then.
pub open spec fn newest_older(
    gens: Seq<Generation>,
    mtimes: Seq<Option<i128>>,
    cutoff: i128,
) -> Option<u64>
    decreases gens.len(),
{
    if gens.len() == 0 {
        None
    } else if is_older(mtimes[gens.len() - 1], cutoff) {
        Some(gens.last().number)
    } else {
        newest_older(gens.drop_last(), mtimes, cutoff)
    }
}

/// The generation at position `k` goes when generations made before `cutoff`
/// do: the current one and the newest of the older ones stay, and nothing goes
/// if the current one is unknown.
pub open spec fn expires(
    gens: Seq<Generation>,
    mtimes: Seq<Option<i128>>,
    current: Option<u64>,
    cutoff: i128,
    k: int,
) -> bool {
    &&& current is Some
    &&& gens[k].number != current->0
    &&& Some(gens[k].number) != newest_older(gens, mtimes, cutoff)
    &&& is_older(mtimes[k], cutoff)
}

/// Choose the generations that go when those made before `cutoff` do. `mtimes`
/// holds when each was made, where that is known. Returns positions in `gens`.
pub fn expired_generations(
    gens: &[Generation],
    mtimes: &[Option<i128>],
    current: Option<u64>,
    cutoff: i128,
) -> (r: Vec<usize>)
    requires
        mtimes@.len() == gens@.len(),
    ensures
        forall|a: int, b: int| 0 <= a < b < r@.len() ==> #[trigger] r@[a] < #[trigger] r@[b],
        forall|k: usize| #[trigger]
            r@.contains(k) <==> k < gens@.len() && expires(
                gens@,
                mtimes@,
                current,
                cutoff,
                k as int,
            ),
{
    let mut r: Vec<usize> = Vec::new();
    let active: u64 = match current {
        Some(c) => c,
        None => {
            return r;
        },
    };
    let keep = find_newest_older(gens, mtimes, cutoff);
    let mut i: usize = 0;
    while i < gens.len()
        invariant
            mtimes@.len() == gens@.len(),
            current == Some(active),
            keep == newest_older(gens@, mtimes@, cutoff),
            i <= gens@.len(),
            forall|a: int, b: int| 0 <= a < b < r@.len() ==> #[trigger] r@[a] < #[trigger] r@[b],
            forall|a: int| 0 <= a < r@.len() ==> #[trigger] r@[a] < i,
            forall|k: usize| #[trigger]
                r@.contains(k) <==> k < i && expires(gens@, mtimes@, current, cutoff, k as int),
        decreases gens@.len() - i,
    {
        let ghost before = r@;
        let number: u64 = gens[i].number;
        let kept = number == active || match keep {
            Some(n) => n == number,
            None => false,
        };
        if !kept {
            if let Some(t) = mtimes[i] {
                if t < cutoff {
                    r.push(i);
                }
            }
        }
        proof {
            assert forall|k: usize| #[trigger] r@.contains(k) <==> k < i + 1 && expires(
                gens@,
                mtimes@,
                current,
                cutoff,
                k as int,
            ) by {
                if before.contains(k) {
                    let j = choose|j: int| 0 <= j < before.len() && before[j] == k;
                    assert(r@[j] == k);
                }
                if k == i && r@.len() > before.len() {
                    assert(r@[before.len() as int] == k);
                }
                if r@.contains(k) && k != i {
                    let j = choose|j: int| 0 <= j < r@.len() && r@[j] == k;
                    assert(before[j] == k);
                }
            }
        }
        i += 1;
    }
    r
}

/// The number of the newest generation made before `cutoff`.
fn find_newest_older(gens: &[Generation], mtimes: &[Option<i128>], cutoff: i128) -> (r: Option<u64>)
    requires
        mtimes@.len() == gens@.len(),
    ensures
        r == newest_older(gens@, mtimes@, cutoff),
{
    let mut i: usize = gens.len();
    assert(gens@.take(i as int) =~= gens@);
    while i > 0
        invariant
            mtimes@.len() == gens@.len(),
            i <= gens@.len(),
            newest_older(gens@.take(i as int), mtimes@, cutoff) == newest_older(
                gens@,
                mtimes@,
                cutoff,
            ),
        decreases i,
    {
        if let Some(t) = mtimes[i - 1] {
            if t < cutoff {
                return Some(gens[i - 1].number);
            }
        }
        assert(gens@.take(i as int).drop_last() =~= gens@.take(i - 1));
        i -= 1;
    }
    None
}

/// Neither the current generation nor one made at or after the cutoff goes, and
/// if any generation is older than the cutoff, the newest of those stays for a
/// rollback.
pub proof fn law_rollback_stays_possible(
    gens: Seq<Generation>,
    mtimes: Seq<Option<i128>>,
    current: Option<u64>,
    cutoff: i128,
    k: int,
)
    requires
        mtimes.len() == gens.len(),
        0 <= k < gens.len(),
    ensures
        current == Some(gens[k].number) ==> !expires(gens, mtimes, current, cutoff, k),
        !is_older(mtimes[k], cutoff) ==> !expires(gens, mtimes, current, cutoff, k),
        is_older(mtimes[k], cutoff) ==> exists|j: int|
            k <= j < gens.len() && is_older(#[trigger] mtimes[j], cutoff) && !expires(
                gens,
                mtimes,
                current,
                cutoff,
                j,
            ),
{
    if is_older(mtimes[k], cutoff) {
        lemma_newest_older(gens, mtimes, cutoff, k);
        let j = choose|j: int|
            k <= j < gens.len() && is_older(#[trigger] mtimes[j], cutoff) && newest_older(
                gens,
                mtimes,
                cutoff,
            ) == Some(gens[j].number);
        assert(!expires(gens, mtimes, current, cutoff, j));
    }
}

proof fn lemma_newest_older(
    gens: Seq<Generation>,
    mtimes: Seq<Option<i128>>,
    cutoff: i128,
    k: int,
)
    requires
        gens.len() <= mtimes.len(),
        0 <= k < gens.len(),
        is_older(mtimes[k], cutoff),
    ensures
        exists|j: int|
            k <= j < gens.len() && is_older(#[trigger] mtimes[j], cutoff) && newest_older(
                gens,
                mtimes,
                cutoff,
            ) == Some(gens[j].number),
    decreases gens.len(),
{
    let last = gens.len() - 1;
    if is_older(mtimes[last], cutoff) {
        assert(gens[last] == gens.last());
    } else {
        let init = gens.drop_last();
        lemma_newest_older(init, mtimes, cutoff, k);
        let j = choose|j: int|
            k <= j < init.len() && is_older(#[trigger] mtimes[j], cutoff) && newest_older(
                init,
                mtimes,
                cutoff,
            ) == Some(init[j].number);
        assert(gens[j] == init[j]);
    }
}

/// If the current generation cannot be told, nothing is deleted.
pub proof fn law_unknown_current_deletes_nothing(
    gens: Seq<Generation>,
    mtimes: Seq<Option<i128>>,
    cutoff: i128,
    k: int,
)
    requires
        0 <= k < gens.len(),
    ensures
        !is_old(None, gens[k]),
        !expires(gens, mtimes, None, cutoff, k),
{
}

/// What to do with an entry of a profile directory.
#[derive(Clone, Copy, PartialEq, Eq, Structural)]
pub enum ProfileStep {
    /// A profile: remove its old generations.
    Prune,
    /// A directory: go into it.
    Recurse,
    /// Something else.
    Skip,
}

/// Decide on an entry of a profile directory. `target` is what a symlink points
/// at, where it could be read.
pub fn on_profile_entry(
    is_symlink: bool,
    is_dir: bool,
    can_write: bool,
    target: Option<&str>,
) -> (r: ProfileStep)
    ensures
        r == if is_symlink && can_write {
            if target is Some && text::has_text(target->0@, "link"@) {
                ProfileStep::Prune
            } else {
                ProfileStep::Skip
            }
        } else if is_dir {
            ProfileStep::Recurse
        } else {
            ProfileStep::Skip
        },
        r == ProfileStep::Prune ==> is_symlink && can_write && target is Some,
        r == ProfileStep::Recurse <==> is_dir && !(is_symlink && can_write),
{
    if is_symlink && can_write {
        match target {
            Some(t) => {
                if text::contains_text(t, "link") {
                    ProfileStep::Prune
                } else {
                    ProfileStep::Skip
                }
            },
            None => ProfileStep::Skip,
        }
    } else if is_dir {
        ProfileStep::Recurse
    } else {
        ProfileStep::Skip
    }
}

/// The directory of a user's state: the one that is set, if it is absolute, or
/// else the usual one in the home directory.
pub open spec fn state_home(xdg: Option<Seq<char>>, home: Option<Seq<char>>) -> Option<Seq<u8>> {
    if xdg is Some && paths::is_absolute(utf8::encode_utf8(xdg->0)) {
        Some(utf8::encode_utf8(xdg->0))
    } else if home is Some {
        Some(db::child(utf8::encode_utf8(home->0), utf8::encode_utf8(".local/state"@)))
    } else {
        None
    }
}

/// The directories scanned for profiles: that of the system and that of the
/// user's state. Never the home directory itself, below which links are not
/// generations.
pub open spec fn profile_dirs_of(
    state_dir: Seq<u8>,
    xdg: Option<Seq<char>>,
    home: Option<Seq<char>>,
) -> Seq<Seq<u8>> {
    let system = db::child(state_dir, utf8::encode_utf8("profiles"@));
    match state_home(xdg, home) {
        Some(dir) => {
            let user = db::child(dir, utf8::encode_utf8("nix/profiles"@));
            if paths::same_path(system, user) {
                seq![system]
            } else {
                seq![system, user]
            }
        },
        None => seq![system],
    }
}

/// The directories scanned for profiles.
pub fn profile_dirs(state_dir: &[u8], xdg: Option<&str>, home: Option<&str>) -> (r: Vec<Vec<u8>>)
    ensures
        paths::raw_views(r@) == profile_dirs_of(
            state_dir@,
            match xdg {
                Some(s) => Some(s@),
                None => None,
            },
            match home {
                Some(s) => Some(s@),
                None => None,
            },
        ),
{
    let system = db::join_path(state_dir, "profiles".as_bytes());
    let ghost system0 = system@;
    let set = match xdg {
        Some(s) => if paths::path_is_absolute(s.as_bytes()) {
            Some(text::copy_bytes(s.as_bytes()))
        } else {
            None
        },
        None => None,
    };
    let base = match set {
        Some(b) => Some(b),
        None => match home {
            Some(h) => Some(db::join_path(h.as_bytes(), ".local/state".as_bytes())),
            None => None,
        },
    };
    let mut r: Vec<Vec<u8>> = Vec::new();
    match base {
        Some(dir) => {
            let user = db::join_path(&dir, "nix/profiles".as_bytes());
            let ghost user0 = user@;
            let same = paths::paths_equal(&system, &user);
            r.push(system);
            if !same {
                r.push(user);
                assert(paths::raw_views(r@) =~= seq![system0, user0]);
            } else {
                assert(paths::raw_views(r@) =~= seq![system0]);
            }
        },
        None => {
            r.push(system);
            assert(paths::raw_views(r@) =~= seq![system0]);
        },
    }
    r
}

/// An hour has sixty minutes of sixty seconds, a day 24 hours, a week seven days
/// and a month thirty. There is no other unit.
pub proof fn law_units_are_multiples(unit: char)
    ensures
        unit_seconds('h') == Some(60 * 60int),
        unit_seconds('d') == Some(24 * unit_seconds('h')->0),
        unit_seconds('w') == Some(7 * unit_seconds('d')->0),
        unit_seconds('m') == Some(30 * unit_seconds('d')->0),
        unit != 'h' && unit != 'd' && unit != 'w' && unit != 'm' ==> unit_seconds(unit) is None,
{
}

proof fn lemma_bytes_of_chars(s: Seq<char>)
    ensures
        utf8::encode_utf8(s).len() >= s.len(),
    decreases s.len(),
{
    if s.len() > 0 {
        utf8::encode_utf8_first_scalar(s);
        lemma_bytes_of_chars(s.drop_first());
        assert(utf8::encode_scalar(s[0] as u32).len() > 0);
    }
}

/// A time spec is a number and a unit, and stands for so many hours, days, weeks
/// or months. Without a number, or with another unit, it is rejected.
pub proof fn law_time_specs_count_units(digits: Seq<char>, n: u64, unit: char)
    ensures
        numbers::number(digits) == Some(n) ==> {
            &&& seconds_of(digits.push('h')) == Ok::<int, TimeSpecError>(n * 3600)
            &&& seconds_of(digits.push('d')) == Ok::<int, TimeSpecError>(n * 24 * 3600)
            &&& seconds_of(digits.push('w')) == Ok::<int, TimeSpecError>(n * 7 * 24 * 3600)
            &&& seconds_of(digits.push('m')) == Ok::<int, TimeSpecError>(n * 30 * 24 * 3600)
        },
        numbers::number(digits) is Some && unit != 'h' && unit != 'd' && unit != 'w' && unit != 'm'
            ==> seconds_of(digits.push(unit)) == Err::<int, TimeSpecError>(
            TimeSpecError::UnknownUnit,
        ),
        digits.len() > 0 && numbers::number(digits) is None ==> seconds_of(digits.push(unit))
            == Err::<int, TimeSpecError>(TimeSpecError::InvalidNumber),
        seconds_of(Seq::empty()) == Err::<int, TimeSpecError>(TimeSpecError::TooShort),
        unit <= '\u{7f}' ==> seconds_of(seq![unit]) == Err::<int, TimeSpecError>(
            TimeSpecError::TooShort,
        ),
{
    assert(digits.push(unit).drop_last() =~= digits);
    assert(digits.push('h').drop_last() =~= digits);
    assert(digits.push('d').drop_last() =~= digits);
    assert(digits.push('w').drop_last() =~= digits);
    assert(digits.push('m').drop_last() =~= digits);
    lemma_bytes_of_chars(digits.push(unit));
    lemma_bytes_of_chars(digits.push('h'));
    lemma_bytes_of_chars(digits.push('d'));
    lemma_bytes_of_chars(digits.push('w'));
    lemma_bytes_of_chars(digits.push('m'));
    if unit <= '\u{7f}' {
        let one = seq![unit];
        assert(utf8::is_ascii_chars(one));
        utf8::is_ascii_chars_encode_utf8(one);
    }
}

/// A generation link is the profile's name, a dash, a number and `-link`, and
/// nothing else is.
pub proof fn law_generation_links_are_numbered(
    profile: Seq<char>,
    digits: Seq<char>,
    name: Seq<char>,
    n: u64,
)
    ensures
        generation(profile + seq!['-'] + digits + "-link"@, profile) == numbers::number(digits),
        generation(profile + seq!['-'] + numbers::decimal(n as int) + "-link"@, profile) == Some(n),
        generation(name, profile) == Some(n) ==> exists|d: Seq<char>|
            name == #[trigger] (profile + seq!['-'] + d + "-link"@) && numbers::number(d) == Some(
                n,
            ),
{
    let head = profile.push('-');
    let end = "-link"@;
    let number = numbers::decimal(n as int);
    numbers::law_decimal_reads_back(n);
    assert(profile + seq!['-'] + digits + end =~= head + (digits + end));
    assert(profile + seq!['-'] + number + end =~= head + (number + end));
    graph::lemma_prefix_joins(head + (digits + end), head, digits + end);
    graph::lemma_prefix_joins(head + (number + end), head, number + end);
    text::lemma_suffix_joins(digits + end, end, digits);
    text::lemma_suffix_joins(number + end, end, number);
    if generation(name, profile) == Some(n) {
        let rest = text::after_prefix(name, head)->0;
        graph::lemma_prefix_joins(name, head, rest);
        let d = text::before_suffix(rest, end)->0;
        text::lemma_suffix_joins(rest, end, d);
        assert(name =~= profile + seq!['-'] + d + end);
    }
}

/// Every generation link of a profile is listed, under its own number, and
/// nothing else is. They stand by number, the highest last.
pub proof fn law_every_generation_is_listed(
    gens: Seq<Generation>,
    names: Seq<Seq<char>>,
    profile: Seq<char>,
    i: usize,
    n: u64,
)
    requires
        lists_generations(gens, names, profile),
    ensures
        gens.contains(Generation { entry: i, number: n }) <==> i < names.len() && generation(
            names[i as int],
            profile,
        ) == Some(n),
        forall|a: int, b: int|
            0 <= a < b < gens.len() ==> (#[trigger] gens[a]).number <= (#[trigger] gens[b]).number
                && gens[a].entry != gens[b].entry,
{
    let g = Generation { entry: i, number: n };
    if gens.contains(g) {
        let k = choose|k: int| 0 <= k < gens.len() && gens[k] == g;
        assert(gens[k].entry == i);
    }
    if i < names.len() && generation(names[i as int], profile) == Some(n) {
        assert(has_entry(gens, i as int));
        let k = choose|k: int| 0 <= k < gens.len() && (#[trigger] gens[k]).entry == i;
        assert(gens[k] == g);
    }
    assert forall|a: int, b: int| 0 <= a < b < gens.len() implies (#[trigger] gens[a]).number <= (
    #[trigger] gens[b]).number && gens[a].entry != gens[b].entry by {
        assert(precedes(gens[a], gens[b]));
    }
}

/// With a known current generation, all others go when old ones do, whether
/// they are older or newer.
pub proof fn law_all_but_the_current_go(g: Generation, current: u64)
    ensures
        is_old(Some(current), g) <==> g.number != current,
{
}

/// A generation made before the cutoff goes if it is not the current one and a
/// generation of a higher number was made before the cutoff too. An earlier
/// cutoff deletes nothing that was not made before it.
pub proof fn law_outlived_generations_go(
    gens: Seq<Generation>,
    mtimes: Seq<Option<i128>>,
    current: u64,
    cutoff: i128,
    k: int,
    j: int,
    made: i128,
    later: i128,
)
    requires
        mtimes.len() == gens.len(),
        forall|a: int, b: int|
            0 <= a < b < gens.len() ==> (#[trigger] gens[a]).number < (#[trigger] gens[b]).number,
        0 <= k < j < gens.len(),
        mtimes[k] == Some(made),
        mtimes[j] == Some(later),
        made < cutoff,
        later < cutoff,
    ensures
        expires(gens, mtimes, Some(current), cutoff, k) <==> gens[k].number != current,
        forall|t: i128|
            t <= made ==> !(#[trigger] expires(gens, mtimes, Some(current), t, k)),
{
    lemma_newest_older(gens, mtimes, cutoff, j);
    let i = choose|i: int|
        j <= i < gens.len() && is_older(#[trigger] mtimes[i], cutoff) && newest_older(
            gens,
            mtimes,
            cutoff,
        ) == Some(gens[i].number);
    assert(gens[k].number < gens[i].number);
}

/// The generation that was active at the cutoff, the last one made before it,
/// stays, and so does one whose time is not known.
pub proof fn law_generation_at_the_cutoff_stays(
    gens: Seq<Generation>,
    mtimes: Seq<Option<i128>>,
    current: Option<u64>,
    cutoff: i128,
    k: int,
)
    requires
        mtimes.len() == gens.len(),
        0 <= k < gens.len(),
    ensures
        mtimes[k] is None ==> !expires(gens, mtimes, current, cutoff, k),
        (mtimes[k] matches Some(t) && t < cutoff) && (forall|j: int|
            k < j < gens.len() ==> match #[trigger] mtimes[j] {
                Some(u) => u >= cutoff,
                None => true,
            }) ==> !expires(gens, mtimes, current, cutoff, k),
        mtimes[k] matches Some(t) ==> (t >= cutoff ==> !expires(gens, mtimes, current, cutoff, k)),
{
    if is_older(mtimes[k], cutoff) {
        lemma_newest_older(gens, mtimes, cutoff, k);
    }
}

/// The state directory that is set counts only if it is absolute; otherwise the
/// one in the home directory does, and without a home only the system's
/// profiles are scanned.
pub proof fn law_profiles_of_the_user_are_found(
    state_dir: Seq<u8>,
    xdg: Seq<char>,
    home: Option<Seq<char>>,
    at_home: Seq<char>,
)
    ensures
        profile_dirs_of(state_dir, None, None) == seq![
            db::child(state_dir, utf8::encode_utf8("profiles"@)),
        ],
        profile_dirs_of(state_dir, Some(xdg), home)[0] == db::child(
            state_dir,
            utf8::encode_utf8("profiles"@),
        ),
        !(utf8::encode_utf8(xdg).len() > 0 && utf8::encode_utf8(xdg)[0] == 47u8)
            ==> profile_dirs_of(state_dir, Some(xdg), home) == profile_dirs_of(
            state_dir,
            None,
            home,
        ),
        ({
            let system = db::child(state_dir, utf8::encode_utf8("profiles"@));
            let user = db::child(utf8::encode_utf8(xdg), utf8::encode_utf8("nix/profiles"@));
            let usual = db::child(
                db::child(utf8::encode_utf8(at_home), utf8::encode_utf8(".local/state"@)),
                utf8::encode_utf8("nix/profiles"@),
            );
            &&& utf8::encode_utf8(xdg).len() > 0 && utf8::encode_utf8(xdg)[0] == 47u8
                && !paths::same_path(system, user) ==> profile_dirs_of(state_dir, Some(xdg), home)
                == seq![system, user]
            &&& !paths::same_path(system, usual) ==> profile_dirs_of(
                state_dir,
                None,
                Some(at_home),
            ) == seq![system, usual]
        }),
{
}

} // verus!
