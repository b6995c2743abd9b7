//! Registering temp roots: the per-process file of zero-terminated store paths,
//! written under a momentary lock or after a running collection agreed.
use crate::gc_socket;
use crate::roots;
use crate::text;
use vstd::prelude::*;
use vstd::utf8;

verus! {

/// What is written to the file of temp roots for a store path.
pub fn root_record(store_path: &str) -> (r: Vec<u8>)
    ensures
        r@ == utf8::encode_utf8(store_path@).push(0u8),
{
    let mut r = text::copy_bytes(store_path.as_bytes());
    r.push(0);
    r
}

proof fn lemma_append_plain(old_contents: Seq<u8>, bytes: Seq<u8>)
    requires
        forall|i: int| 0 <= i < bytes.len() ==> #[trigger] bytes[i] != 0,
        roots::terminated_and_rest(old_contents).1.len() == 0,
    ensures
        roots::terminated_and_rest(old_contents + bytes) == (
            roots::terminated_and_rest(old_contents).0,
            bytes,
        ),
    decreases bytes.len(),
{
    if bytes.len() == 0 {
        assert(old_contents + bytes =~= old_contents);
        assert(roots::terminated_and_rest(old_contents).1 =~= bytes);
    } else {
        let init = bytes.drop_last();
        assert forall|i: int| 0 <= i < init.len() implies #[trigger] init[i] != 0 by {
            assert(init[i] == bytes[i]);
        }
        lemma_append_plain(old_contents, init);
        assert((old_contents + bytes).drop_last() =~= old_contents + init);
        assert(bytes[bytes.len() - 1] != 0);
        assert(init.push(bytes.last()) =~= bytes);
    }
}

/// A temp root that was written is read back by a collection, behind those that
/// were there before.
pub proof fn law_written_root_is_read_back(contents: Seq<u8>, store_path: Seq<char>)
    requires
        roots::terminated_and_rest(contents).1.len() == 0,
        store_path.len() > 0,
        forall|i: int|
            0 <= i < utf8::encode_utf8(store_path).len() ==> #[trigger] utf8::encode_utf8(
                store_path,
            )[i] != 0,
    ensures
        roots::temp_roots_in(contents + utf8::encode_utf8(store_path).push(0u8))
            == roots::temp_roots_in(contents).push(store_path),
        roots::terminated_and_rest(
            contents + utf8::encode_utf8(store_path).push(0u8),
        ).1.len() == 0,
{
    let bytes = utf8::encode_utf8(store_path);
    let all = contents + bytes.push(0u8);
    lemma_append_plain(contents, bytes);
    assert(all.drop_last() =~= contents + bytes);
    utf8::encode_utf8_valid_utf8(store_path);
    utf8::encode_utf8_decode_utf8(store_path);
    assert(bytes.len() > 0) by {
        utf8::encode_utf8_first_scalar(store_path);
        assert(utf8::encode_scalar(store_path[0] as u32).len() > 0);
    }
    let done = roots::terminated_and_rest(contents).0;
    assert(done.push(bytes).drop_last() =~= done);
}

/// A write that was cut short adds no temp root and spoils none.
pub proof fn law_partial_write_is_ignored(contents: Seq<u8>, part: Seq<u8>)
    requires
        roots::terminated_and_rest(contents).1.len() == 0,
        forall|i: int| 0 <= i < part.len() ==> #[trigger] part[i] != 0,
    ensures
        roots::temp_roots_in(contents + part) == roots::temp_roots_in(contents),
{
    lemma_append_plain(contents, part);
}

/// An opened temp root file is usable if it is empty once it is locked: a
/// collection marks a stale file before it unlinks it.
pub fn is_usable(file_len: u64) -> (r: bool)
    ensures
        r == (file_len == 0),
{
    file_len == 0
}

/// Kinds of connection errors that matter here.
#[derive(Clone, Copy, PartialEq, Eq, Structural)]
pub enum PeerFault {
    ConnectionRefused,
    NotFound,
    BrokenPipe,
    ConnectionReset,
    UnexpectedEof,
    Other,
}

/// What happened while a temp root is registered.
#[derive(Clone, Copy, PartialEq, Eq, Structural)]
pub enum AddEvent {
    /// The shared lock was taken: no collection is running.
    Locked,
    /// The shared lock was refused: a collection is running.
    Refused,
    /// The connection to the collection was made.
    Connected,
    /// The connection could not be made.
    ConnectFailed(PeerFault),
    /// The collection answered with this byte.
    Answered(u8),
    /// The exchange with the collection failed.
    ExchangeFailed(PeerFault),
}

/// What to do next.
#[derive(Clone, Copy, PartialEq, Eq, Structural)]
pub enum AddAction {
    /// Write the root, give the lock back, and return how the write went.
    WriteLocked,
    /// Connect to the running collection.
    Connect,
    /// Send the root over the connection and wait for the answer.
    Exchange,
    /// Write the root and return how the write went.
    WriteAcked,
    /// Wait a little, then try the lock again: the collection has ended or has
    /// not opened its socket yet.
    WaitAndRetry,
    /// Drop the connection, then try the lock again: the collection has ended.
    DropAndRetry,
    /// Return an error.
    Fail,
}

/// What follows an event.
pub open spec fn add_step(event: AddEvent, connected: bool) -> AddAction {
    match event {
        AddEvent::Locked => AddAction::WriteLocked,
        AddEvent::Refused => if connected {
            AddAction::Exchange
        } else {
            AddAction::Connect
        },
        AddEvent::Connected => AddAction::Exchange,
        AddEvent::ConnectFailed(f) => if f == PeerFault::ConnectionRefused || f
            == PeerFault::NotFound {
            AddAction::WaitAndRetry
        } else {
            AddAction::Fail
        },
        AddEvent::Answered(b) => if b == gc_socket::ACK {
            AddAction::WriteAcked
        } else {
            AddAction::Fail
        },
        AddEvent::ExchangeFailed(f) => if f == PeerFault::BrokenPipe || f
            == PeerFault::ConnectionReset || f == PeerFault::UnexpectedEof {
            AddAction::DropAndRetry
        } else {
            AddAction::Fail
        },
    }
}

/// Decide what to do next while a temp root is registered. `connected` tells
/// whether a connection from an earlier root is open.
pub fn on_add_event(event: AddEvent, connected: bool) -> (r: AddAction)
    ensures
        r == add_step(event, connected),
{
    match event {
        AddEvent::Locked => AddAction::WriteLocked,
        AddEvent::Refused => {
            if connected {
                AddAction::Exchange
            } else {
                AddAction::Connect
            }
        },
        AddEvent::Connected => AddAction::Exchange,
        AddEvent::ConnectFailed(f) => {
            if f == PeerFault::ConnectionRefused || f == PeerFault::NotFound {
                AddAction::WaitAndRetry
            } else {
                AddAction::Fail
            }
        },
        AddEvent::Answered(b) => {
            if b == gc_socket::ACK {
                AddAction::WriteAcked
            } else {
                AddAction::Fail
            }
        },
        AddEvent::ExchangeFailed(f) => {
            if f == PeerFault::BrokenPipe || f == PeerFault::ConnectionReset || f
                == PeerFault::UnexpectedEof {
                AddAction::DropAndRetry
            } else {
                AddAction::Fail
            }
        },
    }
}

/// A root is written only while no collection can run, or after the running one
/// has agreed to it.
pub proof fn law_roots_are_written_safely(event: AddEvent, connected: bool)
    ensures
        add_step(event, connected) == AddAction::WriteLocked <==> event == AddEvent::Locked,
        add_step(event, connected) == AddAction::WriteAcked <==> event == AddEvent::Answered(
            gc_socket::ACK,
        ),
{
}

/// An empty file holds no temp root, and a part that is empty or not text adds
/// none and spoils none.
pub proof fn law_unreadable_roots_are_skipped(contents: Seq<u8>, part: Seq<u8>)
    requires
        roots::terminated_and_rest(contents).1.len() == 0,
        forall|i: int| 0 <= i < part.len() ==> #[trigger] part[i] != 0,
        part.len() == 0 || !utf8::valid_utf8(part),
    ensures
        roots::temp_roots_in(Seq::empty()).len() == 0,
        roots::terminated_and_rest(Seq::empty()).1.len() == 0,
        roots::temp_roots_in(contents + part.push(0u8)) == roots::temp_roots_in(contents),
        roots::terminated_and_rest(contents + part.push(0u8)).1.len() == 0,
{
    let all = contents + part.push(0u8);
    lemma_append_plain(contents, part);
    assert(all.drop_last() =~= contents + part);
    let done = roots::terminated_and_rest(contents).0;
    assert(done.push(part).drop_last() =~= done);
}

/// While a collection is running, its consent is asked for over a connection,
/// which is made only once. A collection that has ended, or has not opened its
/// socket yet, is no error: the lock is tried again. Any other fault, and any
/// answer but the consent, is.
pub proof fn law_ended_collections_are_no_error(connected: bool, fault: PeerFault, byte: u8)
    ensures
        add_step(AddEvent::Refused, false) == AddAction::Connect,
        add_step(AddEvent::Refused, true) == AddAction::Exchange,
        add_step(AddEvent::Connected, connected) == AddAction::Exchange,
        add_step(AddEvent::ConnectFailed(PeerFault::ConnectionRefused), connected)
            == AddAction::WaitAndRetry,
        add_step(AddEvent::ConnectFailed(PeerFault::NotFound), connected)
            == AddAction::WaitAndRetry,
        fault != PeerFault::ConnectionRefused && fault != PeerFault::NotFound ==> add_step(
            AddEvent::ConnectFailed(fault),
            connected,
        ) == AddAction::Fail,
        add_step(AddEvent::ExchangeFailed(PeerFault::BrokenPipe), connected)
            == AddAction::DropAndRetry,
        add_step(AddEvent::ExchangeFailed(PeerFault::ConnectionReset), connected)
            == AddAction::DropAndRetry,
        add_step(AddEvent::ExchangeFailed(PeerFault::UnexpectedEof), connected)
            == AddAction::DropAndRetry,
        fault != PeerFault::BrokenPipe && fault != PeerFault::ConnectionReset && fault
            != PeerFault::UnexpectedEof ==> add_step(AddEvent::ExchangeFailed(fault), connected)
            == AddAction::Fail,
        byte as char == '1' <==> add_step(AddEvent::Answered(byte), connected)
            == AddAction::WriteAcked,
        byte as char != '1' ==> add_step(AddEvent::Answered(byte), connected) == AddAction::Fail,
{
}

} // verus!
