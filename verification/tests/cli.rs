use fast_nix_gc::cli::{
    available_bytes, closest_match, contradiction, parse_args_head, parse_args_tail,
    parse_optimise_args, recent_cutoff, space_goal, space_to_free, Args, CliError, SpaceGoal,
};
use fast_nix_gc::size::{scale_size, split_size};

fn args(list: &[&str]) -> Vec<String> {
    list.iter().map(|s| s.to_string()).collect()
}

/// `Ok(None)` means that help is wanted.
fn try_parse(list: &[&str]) -> Result<Option<Args>, CliError> {
    let head = match parse_args_head(args(list))? {
        Some(head) => head,
        None => return Ok(None),
    };
    let free = match &head.ensure_free {
        None => None,
        Some(s) => {
            let parts = split_size(s);
            let n: f64 = parts.number.parse().unwrap();
            Some(scale_size(n.to_bits(), parts.exponent).unwrap())
        }
    };
    Ok(Some(parse_args_tail(head, free)?))
}

fn rejected(list: &[&str]) -> String {
    match try_parse(list) {
        Ok(_) => panic!("{list:?} must be rejected"),
        Err(e) => e.message(),
    }
}

fn accepted(list: &[&str]) -> Args {
    match try_parse(list) {
        Ok(Some(a)) => a,
        Ok(None) => panic!("{list:?} asks for no help"),
        Err(e) => panic!("{list:?}: {}", e.message()),
    }
}

#[test]
fn parse_args_rejects_unknown_arguments() {
    let err = rejected(&["--dry-rnu"]);
    assert!(err.contains("--dry-run"), "{err}");
    let err = rejected(&["--keep-resent", "2d"]);
    assert!(err.contains("--keep-recent"), "{err}");
    assert!(try_parse(&["--dry-run", "extra"]).is_err());
    let parsed = accepted(&["--dry-run"]);
    assert!(parsed.dry_run);
}

#[test]
fn stray_arguments_are_rejected_unless_an_option_takes_them() {
    assert_eq!(
        accepted(&["--keep-recent", "--dry-run", "2d"]).keep_recent.as_deref(),
        Some("2d")
    );
    assert_eq!(
        accepted(&["--store-dir", "--dry-rnu"]).store_dir,
        "--dry-rnu"
    );
    assert!(try_parse(&["/nix/store"]).is_err());
    assert!(try_parse(&["--chunk-size", "1", "1"]).is_err());
    let parse = |list: &[&str]| parse_optimise_args(args(list), Some(8));
    assert!(parse(&["0"]).is_err());
    assert!(parse(&["/nix/store"]).is_err());
    assert!(parse(&["--dry-rnu"]).is_err());
    assert!(matches!(parse(&["-j", "3", "--jobs", "2"]), Ok(Some(o)) if o.jobs == 2));
}

#[test]
fn help_wins_over_everything_else() {
    for list in [&["--help"][..], &["--dry-rnu", "--help"], &["--store-dir", "--help"]] {
        assert!(matches!(try_parse(list), Ok(None)));
        assert!(matches!(parse_optimise_args(args(list), None), Ok(None)));
    }
}

#[test]
fn rejections_name_what_is_wrong() {
    assert_eq!(
        rejected(&["--dry-rnu"]),
        "unexpected argument '--dry-rnu'; did you mean '--dry-run'?"
    );
    assert_eq!(
        rejected(&["frobnicate", "a\"b"]),
        "unexpected arguments: [\"frobnicate\", \"a\\\"b\"] (see --help)"
    );
    assert_eq!(
        rejected(&["--store-dir"]),
        "the '--store-dir' option doesn't have an associated value"
    );
    assert_eq!(
        rejected(&["--chunk-size", "x"]),
        "failed to parse 'x': invalid digit found in string"
    );
    assert_eq!(
        rejected(&["--chunk-size", ""]),
        "failed to parse '': cannot parse integer from empty string"
    );
    assert_eq!(
        rejected(&["--keep-outputs", "yes"]),
        "failed to parse 'yes': provided string was not `true` or `false`"
    );
    assert_eq!(
        rejected(&["--max-freed", "-1"]),
        "failed to parse '-1': invalid digit found in string"
    );
    assert_eq!(
        rejected(&["--max-freed", "18446744073709551616"]),
        "failed to parse '18446744073709551616': number too large to fit in target type"
    );
    let of_bytes = CliError::InvalidValue {
        key: "--ensure-free".to_owned(),
        value: "5Q".to_owned(),
        cause: "invalid size '5Q'".to_owned(),
    };
    assert_eq!(of_bytes.message(), "failed to parse '5Q': invalid size '5Q'");
    let odd = ["it's \"odd\"", "caf\u{e9}\n"];
    let held = pico_args::Arguments::from_vec(odd.iter().map(Into::into).collect());
    assert_eq!(
        rejected(&odd),
        format!("unexpected arguments: {:?} (see --help)", held.finish())
    );
}

#[test]
fn options_are_understood() {
    let a = accepted(&[]);
    assert!(!a.delete_old && !a.dry_run && !a.no_vacuum && a.prune_auto && a.prune_devshell);
    assert_eq!((a.ensure_free, a.max_freed, a.chunk_size), (None, None, None));
    assert_eq!((a.keep_outputs, a.keep_derivations), (None, None));
    assert_eq!((a.store_dir.as_str(), a.state_dir.as_str()), ("/nix/store", "/nix/var/nix"));

    let a = accepted(&[
        "-d", "--delete-older-than", "30d", "--ensure-free", "1.5K", "--keep-recent", "7d",
        "--no-vacuum", "--chunk-size", "10", "--no-prune-devshell-roots", "--no-prune-auto-roots",
        "--keep-outputs", "true", "--keep-derivations", "false", "--store-dir", "/s", "--state-dir",
        "/t",
    ]);
    assert!(a.delete_old && a.no_vacuum && !a.prune_auto && !a.prune_devshell);
    assert_eq!(a.delete_older_than.as_deref(), Some("30d"));
    assert_eq!(a.ensure_free, Some(1536));
    assert_eq!(a.keep_recent.as_deref(), Some("7d"));
    assert_eq!(a.chunk_size, Some(10));
    assert_eq!((a.keep_outputs, a.keep_derivations), (Some(true), Some(false)));
    assert_eq!((a.store_dir.as_str(), a.state_dir.as_str()), ("/s", "/t"));

    assert!(accepted(&["--delete-old"]).delete_old);
    assert!(accepted(&["--delete-older-than", "1d"]).delete_old);
    assert_eq!(accepted(&["--max-freed", "1"]).max_freed, Some(1));
    assert!(matches!(try_parse(&["--dry-run", "--help"]), Ok(None)));
}

#[test]
fn goals_contradict_dry_runs() {
    let both = accepted(&["--dry-run", "--ensure-free", "1G"]);
    assert_eq!(
        contradiction(&both),
        Some("--ensure-free cannot be combined with --dry-run")
    );
    let max = accepted(&["--dry-run", "--max-freed", "1"]);
    assert_eq!(
        contradiction(&max),
        Some("options --max-freed and --dry-run cannot be combined")
    );
    assert_eq!(contradiction(&accepted(&["--dry-run"])), None);
    assert_eq!(contradiction(&accepted(&["--max-freed", "1"])), None);
}

#[test]
fn optimiser_options_are_understood() {
    let parse = |list: &[&str]| parse_optimise_args(args(list), Some(8));
    match parse(&["--dry-run", "--min-size", "42", "-j", "3", "--store-dir", "/s"]) {
        Ok(Some(o)) => {
            assert!(o.dry_run);
            assert_eq!((o.min_size, o.jobs), (42, 3));
            assert_eq!((o.store_dir.as_str(), o.state_dir.as_str()), ("/s", "/nix/var/nix"));
        }
        _ => panic!("must be accepted"),
    }
    match parse(&[]) {
        Ok(Some(o)) => assert_eq!((o.jobs, o.min_size, o.dry_run), (8, 0, false)),
        _ => panic!("must be accepted"),
    }
    match parse_optimise_args(args(&["--jobs", "2"]), None) {
        Ok(Some(o)) => assert_eq!(o.jobs, 2),
        _ => panic!("must be accepted"),
    }
    let answer = |list: &[&str]| match parse(list) {
        Err(e) => e.message(),
        Ok(_) => panic!("{list:?} must be rejected"),
    };
    assert_eq!(answer(&["--jobs", "0"]), "--jobs must be at least 1");
    assert_eq!(
        answer(&["--min-sise", "3"]),
        "unexpected argument '--min-sise'; did you mean '--min-size'?"
    );
    assert!(matches!(parse(&["--help"]), Ok(None)));
}

#[test]
fn closest_match_counts_typos() {
    let known = args(&["--dry-run", "--store-dir", "--state-dir"]);
    assert_eq!(closest_match("--dry-rnu", &known).as_deref(), Some("--dry-run"));
    assert_eq!(closest_match("--stare-dir", &known).as_deref(), Some("--store-dir"));
    assert_eq!(closest_match("--state-dirs", &known).as_deref(), Some("--state-dir"));
    assert_eq!(closest_match("frobnicate", &known), None);
    assert_eq!(closest_match("", &args(&["ab", "abc"])).as_deref(), Some("ab"));
}

#[test]
fn space_is_counted_from_what_is_there() {
    assert_eq!(space_to_free(100, 40), Some(60));
    assert_eq!(space_to_free(100, 100), None);
    assert_eq!(available_bytes(3, 4096), 12288);
    assert!(space_goal(Some(100), Some(7), 40) == SpaceGoal::Limit(Some(60)));
    assert!(space_goal(Some(100), None, 100) == SpaceGoal::Met);
    assert!(space_goal(None, Some(7), 0) == SpaceGoal::Limit(Some(7)));
    assert!(space_goal(None, None, 0) == SpaceGoal::Limit(None));
    assert_eq!(recent_cutoff(1000, 300), 700);
    assert_eq!(recent_cutoff(1000, 3000), 0);
}
