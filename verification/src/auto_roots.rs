//! Pruning of indirect roots that have not been used for long.
use crate::paths;
use vstd::prelude::*;
use vstd::utf8;

verus! {

/// The name of a development shell's directory.
pub open spec fn direnv_name() -> Seq<u8> {
    seq![46u8, 100u8, 105u8, 114u8, 101u8, 110u8, 118u8]
}

/// The position of the first component named like a development shell's
/// directory, or the number of components.
pub open spec fn first_direnv(parts: Seq<Seq<u8>>) -> int
    decreases parts.len(),
{
    if parts.len() == 0 || parts[0] == direnv_name() {
        0
    } else {
        1 + first_direnv(parts.drop_first())
    }
}

proof fn lemma_first_direnv(parts: Seq<Seq<u8>>, k: int)
    requires
        0 <= k <= parts.len(),
        forall|i: int| 0 <= i < k ==> #[trigger] parts[i] != direnv_name(),
        k < parts.len() ==> parts[k] == direnv_name(),
    ensures
        first_direnv(parts) == k,
    decreases k,
{
    if k > 0 {
        assert(parts[0] != direnv_name());
        assert forall|i: int| 0 <= i < k - 1 implies #[trigger] parts.drop_first()[i]
            != direnv_name() by {
            assert(parts.drop_first()[i] == parts[i + 1]);
        }
        lemma_first_direnv(parts.drop_first(), k - 1);
    }
}

/// If `target` lies inside a `.direnv` directory, the path of that directory.
/// A whole component must match: a project named "foo.direnv" does not qualify.
pub fn direnv_dir(target: &[u8]) -> (r: Option<Vec<u8>>)
    ensures
        ({
            let parts = paths::components(target@);
            let k = first_direnv(parts);
            match r {
                Some(dir) => k < parts.len() && dir@ == paths::rendered(
                    paths::is_absolute(target@),
                    parts.take(k + 1),
                ),
                None => k == parts.len(),
            }
        }),
{
    let parts = paths::path_components(target);
    let ghost all = paths::components(target@);
    let name: Vec<u8> = vec![46, 100, 105, 114, 101, 110, 118];
    assert(name@ =~= direnv_name());
    let mut i: usize = 0;
    while i < parts.len()
        invariant
            all == paths::raw_views(parts@),
            all == paths::components(target@),
            name@ == direnv_name(),
            i <= parts@.len(),
            forall|j: int| 0 <= j < i ==> #[trigger] all[j] != direnv_name(),
        decreases parts@.len() - i,
    {
        assert(all[i as int] == parts@[i as int]@);
        if paths::same_bytes(&parts[i], &name) {
            proof {
                lemma_first_direnv(all, i as int);
            }
            return Some(paths::render(paths::path_is_absolute(target), &parts, i + 1));
        }
        i += 1;
    }
    proof {
        lemma_first_direnv(all, i as int);
    }
    None
}

/// `t` is the latest of the known times.
pub open spec fn is_newest(times: Seq<Option<i128>>, t: i128) -> bool {
    &&& times.contains(Some(t))
    &&& forall|i: int| 0 <= i < times.len() ==> match #[trigger] times[i] {
        Some(u) => u <= t,
        None => true,
    }
}

/// The latest of the known times, if any is known: the last time that a
/// development shell was loaded or rebuilt.
pub fn newest_rc_activity(times: &[Option<i128>]) -> (r: Option<i128>)
    ensures
        match r {
            Some(t) => is_newest(times@, t),
            None => forall|i: int| 0 <= i < times@.len() ==> (#[trigger] times@[i]) is None,
        },
{
    let mut newest: Option<i128> = None;
    let mut i: usize = 0;
    while i < times.len()
        invariant
            i <= times@.len(),
            match newest {
                Some(t) => {
                    &&& exists|j: int| 0 <= j < i && #[trigger] times@[j] == Some(t)
                    &&& forall|j: int| 0 <= j < i ==> match #[trigger] times@[j] {
                        Some(u) => u <= t,
                        None => true,
                    }
                },
                None => forall|j: int| 0 <= j < i ==> (#[trigger] times@[j]) is None,
            },
        decreases times@.len() - i,
    {
        if let Some(t) = times[i] {
            let later = match newest {
                Some(n) => t > n,
                None => true,
            };
            if later {
                newest = Some(t);
                assert(times@[i as int] == Some(t));
            }
        }
        i += 1;
    }
    newest
}

/// The newest of the known times is one of them, and none is later, so there is
/// only one.
pub proof fn law_newest_time_is_the_latest(
    times: Seq<Option<i128>>,
    t: i128,
    u: i128,
    i: int,
)
    requires
        is_newest(times, t),
    ensures
        times.contains(Some(t)),
        0 <= i < times.len() && times[i] == Some(u) ==> u <= t,
        is_newest(times, u) ==> u == t,
{
    if is_newest(times, u) {
        let j = choose|j: int| 0 <= j < times.len() && times[j] == Some(t);
        let k = choose|k: int| 0 <= k < times.len() && times[k] == Some(u);
        assert(times[j] == Some(t) && times[k] == Some(u));
    }
}

/// Kinds of roots that are pruned.
#[derive(Clone, Copy, PartialEq, Eq, Structural)]
pub enum StaleRoot {
    /// A development shell that was not loaded lately.
    Devshell,
    /// Another root, registered long ago.
    Other,
}

impl StaleRoot {
    /// How the root is called in messages.
    pub fn describe(&self) -> (r: String)
        ensures
            r@ == match self {
                StaleRoot::Devshell => "unused devshell"@,
                StaleRoot::Other => "old root"@,
            },
    {
        match self {
            StaleRoot::Devshell => "unused devshell".to_owned(),
            StaleRoot::Other => "old root".to_owned(),
        }
    }
}

/// When a root was last used: a development shell by its latest activity, or by
/// its registration where none is known; another root by its registration.
pub open spec fn last_used(
    devshell: bool,
    activity: Option<i128>,
    registered: Option<i128>,
) -> Option<i128> {
    if devshell && activity is Some {
        activity
    } else {
        registered
    }
}

/// Decide whether a root is to be pruned: its kind is to be pruned, and its
/// last use is known and lies before `cutoff`.
pub fn judge_auto_root(
    devshell: bool,
    prune_devshell: bool,
    prune_other: bool,
    activity: Option<i128>,
    registered: Option<i128>,
    cutoff: i128,
) -> (r: Option<StaleRoot>)
    ensures
        r is Some <==> (if devshell {
            prune_devshell
        } else {
            prune_other
        }) && last_used(devshell, activity, registered) is Some && last_used(
            devshell,
            activity,
            registered,
        )->0 < cutoff,
        r matches Some(kind) ==> kind == if devshell {
            StaleRoot::Devshell
        } else {
            StaleRoot::Other
        },
        devshell ==> (activity matches Some(t) ==> (r is Some <==> prune_devshell && t < cutoff)),
        devshell && activity is None ==> (registered matches Some(t) ==> (r is Some
            <==> prune_devshell && t < cutoff)),
        !devshell ==> (registered matches Some(t) ==> (r is Some <==> prune_other && t < cutoff)),
        registered is None && (!devshell || activity is None) ==> r is None,
{
    let wanted = if devshell {
        prune_devshell
    } else {
        prune_other
    };
    if !wanted {
        return None;
    }
    let used = if devshell {
        match activity {
            Some(t) => Some(t),
            None => registered,
        }
    } else {
        registered
    };
    match used {
        Some(t) => if t < cutoff {
            if devshell {
                Some(StaleRoot::Devshell)
            } else {
                Some(StaleRoot::Other)
            }
        } else {
            None
        },
        None => None,
    }
}

/// A path lies in the first of its components that is named `.direnv`, letter
/// for letter.
pub proof fn law_first_direnv_is_found(before: Seq<Seq<u8>>, after: Seq<Seq<u8>>)
    requires
        !before.contains(utf8::encode_utf8(".direnv"@)),
    ensures
        first_direnv(before + seq![utf8::encode_utf8(".direnv"@)] + after) == before.len(),
        first_direnv(before) == before.len(),
{
    lemma_direnv_name();
    let all = before + seq![direnv_name()] + after;
    assert forall|i: int| 0 <= i < before.len() implies #[trigger] before[i] != direnv_name() by {
        assert(before.contains(before[i]));
    }
    assert forall|i: int| 0 <= i < before.len() implies #[trigger] all[i] != direnv_name() by {
        assert(all[i] == before[i]);
    }
    assert(all[before.len() as int] == direnv_name());
    lemma_first_direnv(all, before.len() as int);
    lemma_first_direnv(before, before.len() as int);
}

proof fn lemma_direnv_name()
    ensures
        utf8::encode_utf8(".direnv"@) == direnv_name(),
{
    reveal_strlit(".direnv");
    let s = ".direnv"@;
    utf8::is_ascii_chars_encode_utf8(s);
    assert(utf8::encode_utf8(s) =~= direnv_name());
}

/// A development shell was last used when it was last active, where that is
/// known. Activity does not count for any other root.
pub proof fn law_activity_counts_for_devshells(
    activity: i128,
    registered: Option<i128>,
    devshell: bool,
)
    ensures
        last_used(true, Some(activity), registered) == Some(activity),
        last_used(false, Some(activity), registered) == registered,
        last_used(devshell, None, registered) == registered,
{
}

} // verus!
