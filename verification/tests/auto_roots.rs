use fast_nix_gc::auto_roots::{direnv_dir, judge_auto_root, newest_rc_activity, StaleRoot};
use fast_nix_gc::paths::is_rc_file;

#[test]
fn direnv_dir_matches_component_only() {
    assert_eq!(
        direnv_dir(b"/p/x/.direnv/flake-profile-1-link"),
        Some(b"/p/x/.direnv".to_vec())
    );
    assert_eq!(direnv_dir(b"/p/x.direnv/link"), None);
    assert_eq!(direnv_dir(b"/p/x/result"), None);
}

#[test]
fn direnv_dir_itself_counts() {
    assert_eq!(direnv_dir(b"/p/.direnv"), Some(b"/p/.direnv".to_vec()));
    assert_eq!(direnv_dir(b".direnv/x"), Some(b".direnv".to_vec()));
    assert_eq!(
        direnv_dir(b"/a/.direnv/b/.direnv/c"),
        Some(b"/a/.direnv".to_vec())
    );
}

#[test]
fn newest_activity_wins() {
    assert_eq!(newest_rc_activity(&[None, Some(5), Some(9), None, Some(2)]), Some(9));
    assert_eq!(newest_rc_activity(&[None]), None);
    assert_eq!(newest_rc_activity(&[]), None);
    assert!(is_rc_file(b"flake-profile.rc"));
    assert!(!is_rc_file(b"flake-profile"));
}

#[test]
fn old_roots_are_stale() {
    let judge = |devshell, activity, registered| {
        judge_auto_root(devshell, true, true, activity, registered, 100)
    };
    assert!(matches!(judge(true, Some(99), Some(1)), Some(StaleRoot::Devshell)));
    assert!(judge(true, Some(100), Some(1)).is_none());
    assert!(matches!(judge(false, None, Some(99)), Some(StaleRoot::Other)));
    assert!(judge(false, None, Some(100)).is_none());
    assert!(judge(false, None, None).is_none());
    assert!(judge_auto_root(true, false, true, Some(1), Some(1), 100).is_none());
    assert!(judge_auto_root(false, true, false, None, Some(1), 100).is_none());
}
