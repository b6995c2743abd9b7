use fast_nix_gc::roots::parse_temp_roots;
use fast_nix_gc::temp_roots::{
    is_usable, on_add_event, root_record, AddAction, AddEvent, PeerFault,
};

#[test]
fn add_writes_nul_terminated_roots() {
    let mut data = root_record("/nix/store/aaa-x");
    data.extend(root_record("/nix/store/bbb-y"));
    assert_eq!(data, b"/nix/store/aaa-x\0/nix/store/bbb-y\0");
    assert_eq!(
        parse_temp_roots(&data),
        vec!["/nix/store/aaa-x".to_owned(), "/nix/store/bbb-y".to_owned()]
    );
}

#[test]
fn add_uses_gc_socket_when_gc_holds_the_lock() {
    // The lock is taken by a running collection: connect, ask, write once the
    // answer is there.
    assert!(on_add_event(AddEvent::Refused, false) == AddAction::Connect);
    assert!(on_add_event(AddEvent::Connected, false) == AddAction::Exchange);
    assert_eq!(
        fast_nix_gc::gc_socket::request_line("/nix/store/ccc-z"),
        "/nix/store/ccc-z\n"
    );
    assert!(on_add_event(AddEvent::Answered(b'1'), true) == AddAction::WriteAcked);
    assert_eq!(root_record("/nix/store/ccc-z"), b"/nix/store/ccc-z\0");
}

#[test]
fn roots_are_written_under_the_lock_or_once_acked() {
    assert!(on_add_event(AddEvent::Locked, false) == AddAction::WriteLocked);
    // A connection that exists already is used again.
    assert!(on_add_event(AddEvent::Refused, true) == AddAction::Exchange);
    // The collection may not serve yet, or be over.
    for gone in [PeerFault::ConnectionRefused, PeerFault::NotFound] {
        assert!(on_add_event(AddEvent::ConnectFailed(gone), false) == AddAction::WaitAndRetry);
    }
    assert!(on_add_event(AddEvent::ConnectFailed(PeerFault::Other), false) == AddAction::Fail);
    for gone in [
        PeerFault::BrokenPipe,
        PeerFault::ConnectionReset,
        PeerFault::UnexpectedEof,
    ] {
        assert!(on_add_event(AddEvent::ExchangeFailed(gone), true) == AddAction::DropAndRetry);
    }
    assert!(on_add_event(AddEvent::ExchangeFailed(PeerFault::Other), true) == AddAction::Fail);
    assert!(on_add_event(AddEvent::Answered(b'0'), true) == AddAction::Fail);
}

#[test]
fn files_marked_stale_are_not_used() {
    assert!(is_usable(0));
    assert!(!is_usable(1));
}

#[test]
fn partial_writes_are_ignored() {
    let mut data = root_record("/nix/store/aaa-x");
    data.extend(b"/nix/store/bb");
    assert_eq!(parse_temp_roots(&data), vec!["/nix/store/aaa-x".to_owned()]);
    assert!(parse_temp_roots(b"no end").is_empty());
    assert!(parse_temp_roots(b"").is_empty());
}
