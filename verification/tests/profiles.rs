use fast_nix_gc::profiles::{
    expired_generations, find_generation_links, generation_of, old_generations, on_profile_entry,
    parse_older_than, profile_dirs, time_spec_fits, Generation, ProfileStep, TimeSpecError,
};

#[test]
fn parse_older_than_units() {
    assert!(parse_older_than("2h").ok() == Some(2 * 3600));
    assert!(parse_older_than("3d").ok() == Some(3 * 86400));
    assert!(parse_older_than("2w").ok() == Some(2 * 7 * 86400));
    assert!(parse_older_than("2m").ok() == Some(2 * 30 * 86400));
}

#[test]
fn parse_older_than_rejects_invalid() {
    assert!(parse_older_than("").is_err());
    assert!(parse_older_than("d").is_err());
    assert!(parse_older_than("5x").is_err());
    assert!(parse_older_than("xd").is_err());
}

#[test]
fn rejected_specs_say_why() {
    assert!(matches!(parse_older_than("d"), Err(TimeSpecError::TooShort)));
    assert!(matches!(parse_older_than("xd"), Err(TimeSpecError::InvalidNumber)));
    assert!(matches!(parse_older_than("5x"), Err(TimeSpecError::UnknownUnit)));
    assert!(time_spec_fits("30d"));
    assert!(!time_spec_fits("18446744073709551615m"));
}

/// A profile with its generations, as they lie in one directory.
struct Profile {
    names: Vec<String>,
    target: Option<String>,
}

impl Profile {
    /// Generations 1..=n; the profile points to generation `current`.
    fn setup(n: u64, current: u64) -> Profile {
        Profile {
            names: (1..=n).map(|i| format!("system-{i}-link")).collect(),
            target: Some(format!("system-{current}-link")),
        }
    }

    fn current(&self) -> Option<u64> {
        self.target.as_deref().and_then(|t| generation_of(t, "system"))
    }

    fn gens(&self) -> Vec<Generation> {
        find_generation_links(&self.names, "system")
    }

    fn existing(&self) -> Vec<u64> {
        self.gens().iter().map(|g| g.number).collect()
    }

    fn remove(&mut self, entries: Vec<usize>) {
        let gone: Vec<String> = entries.iter().map(|&e| self.names[e].clone()).collect();
        self.names.retain(|n| !gone.contains(n));
    }

    fn delete_old(&mut self, dry_run: bool) {
        let gens = self.gens();
        let old = old_generations(&gens, self.current());
        if !dry_run {
            self.remove(old.iter().map(|g| g.entry).collect());
        }
    }

    fn delete_older(&mut self, mtime: impl Fn(u64) -> i128, cutoff: i128, dry_run: bool) {
        let gens = self.gens();
        let mtimes: Vec<Option<i128>> = gens.iter().map(|g| Some(mtime(g.number))).collect();
        let expired = expired_generations(&gens, &mtimes, self.current(), cutoff);
        if !dry_run {
            self.remove(expired.iter().map(|&k| gens[k].entry).collect());
        }
    }
}

#[test]
fn generation_links_and_current() {
    // Generation links out of order, plus noise.
    let names: Vec<String> = [
        "system-3-link",
        "system-1-link",
        "system-2-link",
        "other-1-link",
        "system-foo-link",
        "system",
    ]
    .iter()
    .map(|s| s.to_string())
    .collect();
    let gens = find_generation_links(&names, "system");
    let nums: Vec<u64> = gens.iter().map(|g| g.number).collect();
    assert_eq!(nums, vec![1, 2, 3]);
    assert_eq!(names[gens[0].entry], "system-1-link");

    assert_eq!(generation_of("system-2-link", "system"), Some(2));
}

#[test]
fn delete_old_generations_keeps_only_current() {
    let mut p = Profile::setup(3, 2);

    // A dry run leaves everything in place.
    p.delete_old(true);
    assert_eq!(p.existing(), vec![1, 2, 3]);

    p.delete_old(false);
    assert_eq!(p.existing(), vec![2]);
}

#[test]
fn delete_generations_older_than_cutoff() {
    let mut p = Profile::setup(4, 4);
    let base: i128 = 1_000_000;
    // generation i has mtime base + i*100s
    let mtime = |i: u64| base + i as i128 * 100;

    // Cutoff exactly at generation 2's mtime: generation 1 is the only
    // strictly older one, and as the one active at the cutoff it is kept.
    p.delete_older(mtime, base + 200, true);
    assert_eq!(p.existing(), vec![1, 2, 3, 4]);
    p.delete_older(mtime, base + 200, false);
    assert_eq!(p.existing(), vec![1, 2, 3, 4]);

    // Cutoff between generations 3 and 4: 1 to 3 are older, 3 was active at
    // the cutoff and is kept; 1 and 2 go.
    p.delete_older(mtime, base + 350, false);
    assert_eq!(p.existing(), vec![3, 4]);

    // Cutoff after all: the newest older one is the current generation
    // itself, so everything else goes.
    p.delete_older(mtime, base + 10_000, false);
    assert_eq!(p.existing(), vec![4]);
}

/// A directory entry: a directory with its entries, or a symlink.
enum Entry {
    Dir(Vec<(String, Entry)>),
    Link(String),
}

/// Remove old generations below a directory, as each entry's step says.
fn remove_old_below(dir: &mut Vec<(String, Entry)>) {
    let mut profiles: Vec<(String, String)> = Vec::new();
    for (name, entry) in dir.iter_mut() {
        let step = match entry {
            Entry::Dir(_) => on_profile_entry(false, true, true, None),
            Entry::Link(target) => on_profile_entry(true, false, true, Some(target.as_str())),
        };
        match (step, entry) {
            (ProfileStep::Recurse, Entry::Dir(inner)) => remove_old_below(inner),
            (ProfileStep::Prune, Entry::Link(target)) => {
                profiles.push((name.clone(), target.clone()))
            }
            _ => {}
        }
    }
    for (profile, target) in profiles {
        let names: Vec<String> = dir.iter().map(|(n, _)| n.clone()).collect();
        let gens = find_generation_links(&names, &profile);
        let base = target.rsplit('/').next().unwrap();
        let gone: Vec<String> = old_generations(&gens, generation_of(base, &profile))
            .iter()
            .map(|g| names[g.entry].clone())
            .collect();
        dir.retain(|(n, _)| !gone.contains(n));
    }
}

#[test]
fn remove_old_generations_recurses_and_skips_non_link_targets() {
    let link = |name: &str, target: &str| (name.to_owned(), Entry::Link(target.to_owned()));
    let nested: Vec<(String, Entry)> = (1..=3)
        .map(|i| link(&format!("prof-{i}-link"), &format!("/nix/store/fake-{i}")))
        .chain([link("prof", "/p/per-user/alice/prof-3-link")])
        .collect();
    let alice = vec![("alice".to_owned(), Entry::Dir(nested))];
    let mut outer = vec![
        ("per-user".to_owned(), Entry::Dir(alice)),
        // A symlink whose target does not contain "link" must be left alone.
        link("plain", "/nix/store/zzz"),
    ];
    remove_old_below(&mut outer);

    let Entry::Dir(per_user) = &outer[0].1 else {
        panic!("per-user is a directory");
    };
    let Entry::Dir(nested) = &per_user[0].1 else {
        panic!("alice is a directory");
    };
    let names: Vec<String> = nested.iter().map(|(n, _)| n.clone()).collect();
    let gens: Vec<u64> = find_generation_links(&names, "prof").iter().map(|g| g.number).collect();
    assert_eq!(gens, vec![3]);
    assert!(names.contains(&"prof".to_owned()));
    assert_eq!(outer[1].0, "plain");

    assert!(on_profile_entry(false, true, true, None) == ProfileStep::Recurse);
    assert!(on_profile_entry(true, false, true, Some("/p/prof-3-link")) == ProfileStep::Prune);
    // A symlink whose target does not contain "link" must be left alone.
    assert!(on_profile_entry(true, false, true, Some("/nix/store/zzz")) == ProfileStep::Skip);
    assert!(on_profile_entry(true, false, false, Some("/p/prof-3-link")) == ProfileStep::Skip);
    assert!(on_profile_entry(true, false, true, None) == ProfileStep::Skip);
    assert!(on_profile_entry(false, false, true, None) == ProfileStep::Skip);
}

#[test]
fn profile_dirs_includes_state_and_xdg_paths_but_not_home() {
    let dirs = profile_dirs(b"/var/state", None, Some("/home/u"));
    assert!(dirs.contains(&b"/var/state/profiles".to_vec()));
    // The home directory itself must never be scanned recursively.
    assert!(!dirs.contains(&b"/home/u".to_vec()));
    assert!(dirs.contains(&b"/home/u/.local/state/nix/profiles".to_vec()));
    let dirs = profile_dirs(b"/var/state", Some("/xdg"), Some("/home/u"));
    assert!(dirs.contains(&b"/xdg/nix/profiles".to_vec()));
    assert!(!dirs.contains(&b"/home/u/.local/state/nix/profiles".to_vec()));
}

#[test]
fn unparseable_current_generation_deletes_nothing() {
    // A profile that points at no generation: refusing to guess protects the
    // active generation from "delete all but current".
    let mut p = Profile::setup(3, 2);
    p.target = Some("/nix/store/custom-env".to_owned());

    p.delete_old(false);
    assert_eq!(p.existing(), vec![1, 2, 3]);

    p.delete_older(|_| 0, i128::MAX, false);
    assert_eq!(p.existing(), vec![1, 2, 3]);
}

#[test]
fn current_generation_none_when_missing() {
    // The profile exists but does not point at a generation.
    assert_eq!(generation_of("whatever", "system"), None);
    assert_eq!(generation_of("system-x-link", "system"), None);
    assert_eq!(generation_of("system-1", "system"), None);

    // No matching generation links anywhere.
    let names = vec!["system".to_owned(), "nope".to_owned()];
    assert!(find_generation_links(&names, "system").is_empty());
}

#[test]
fn rollback_stays_possible() {
    // The newest generation before the cutoff stays, whatever its number.
    let mut p = Profile::setup(5, 5);
    let mtime = |i: u64| match i {
        1 => 10,
        2 => 20,
        3 => 30,
        4 => 40,
        _ => 50,
    };
    p.delete_older(mtime, 45, false);
    assert_eq!(p.existing(), vec![4, 5]);
}
