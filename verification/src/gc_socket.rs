//! The roots socket: builders send newline-terminated store paths and wait for
//! a single `'1'` per line.
use crate::text;
use vstd::prelude::*;
use vstd::utf8;

verus! {

/// Paths are bounded; a peer that streams without a newline is cut off.
pub const MAX_LINE: usize = 65536;

/// The byte that acknowledges a line.
pub const ACK: u8 = 49;

/// What a line from a client asks for.
pub enum LineAction {
    /// The client has closed the connection.
    Closed,
    /// The line exceeds the limit: drop the connection.
    TooLong,
    /// Protect the store path with this basename, then acknowledge.
    Root(String),
    /// Not a store path: acknowledge and go on.
    Garbage,
}

/// What a line from a client means.
pub enum Meaning {
    Closed,
    TooLong,
    Root(Seq<char>),
    Garbage,
}

/// What a line, read up to its newline or the limit, means.
pub open spec fn meaning_of(line: Seq<char>, store_prefix: Seq<char>) -> Meaning {
    let n = utf8::encode_utf8(line).len();
    if n == 0 {
        Meaning::Closed
    } else if n == MAX_LINE && line.last() != '\n' {
        Meaning::TooLong
    } else {
        match text::after_prefix(text::trim_end(line, '\n'), store_prefix) {
            Some(basename) => if basename.len() > 0 {
                Meaning::Root(basename)
            } else {
                Meaning::Garbage
            },
            None => Meaning::Garbage,
        }
    }
}

/// Decide on a line from a client.
pub fn on_line(line: &str, store_prefix: &str) -> (r: LineAction)
    ensures
        match r {
            LineAction::Closed => meaning_of(line@, store_prefix@) == Meaning::Closed,
            LineAction::TooLong => meaning_of(line@, store_prefix@) == Meaning::TooLong,
            LineAction::Root(b) => meaning_of(line@, store_prefix@) == Meaning::Root(b@),
            LineAction::Garbage => meaning_of(line@, store_prefix@) == Meaning::Garbage,
        },
{
    let n: usize = line.as_bytes().len();
    if n == 0 {
        return LineAction::Closed;
    }
    proof {
        assert(line@.len() > 0);
    }
    if n == MAX_LINE && !text::ends_with_char(line, '\n') {
        return LineAction::TooLong;
    }
    let path = text::trim_end_char(line, '\n');
    match text::strip_prefix(path.as_str(), store_prefix) {
        Some(basename) => {
            if basename.as_str().is_empty() {
                LineAction::Garbage
            } else {
                LineAction::Root(basename)
            }
        },
        None => LineAction::Garbage,
    }
}

/// The line that a client sends for a store path.
pub fn request_line(store_path: &str) -> (r: String)
    ensures
        r@ == store_path@.push('\n'),
{
    let mut r = store_path.to_owned();
    r.push('\n');
    r
}

/// What a client asks for is what the server understands: the line sent for a
/// store path asks to protect that path.
pub proof fn law_request_is_understood(store_prefix: Seq<char>, basename: Seq<char>)
    requires
        basename.len() > 0,
        basename.last() != '\n',
    ensures
        meaning_of((store_prefix + basename).push('\n'), store_prefix) == Meaning::Root(basename),
{
    let path = store_prefix + basename;
    let line = path.push('\n');
    assert(line.drop_last() =~= path);
    assert(path.last() == basename.last());
    assert(text::trim_end(line, '\n') == path) by {
        assert(text::trim_end(path, '\n') == path);
    }
    crate::graph::lemma_prefix_joins(path, store_prefix, basename);
    let bytes = utf8::encode_utf8(line);
    assert(bytes.len() > 0) by {
        utf8::encode_utf8_first_scalar(line);
        assert(utf8::encode_scalar(line[0] as u32).len() > 0);
    }
}

/// A line without any byte means that the client has gone, and one of 65536
/// bytes without a newline that it sends too much. Any other line that does not
/// begin with the store's prefix, or has nothing behind it, is passed over, and
/// what is behind it otherwise is the path to protect, whether or not the last
/// line was ended.
pub proof fn law_every_line_is_answered(
    line: Seq<char>,
    store_prefix: Seq<char>,
    basename: Seq<char>,
)
    ensures
        meaning_of(line, store_prefix) == Meaning::Closed <==> line.len() == 0,
        meaning_of(line, store_prefix) == Meaning::TooLong <==> utf8::encode_utf8(line).len()
            == 65536 && line.last() != '\n',
        ({
            let n = utf8::encode_utf8(line).len();
            n > 0 && n != 65536 && (forall|rest: Seq<char>|
                line != #[trigger] (store_prefix + rest)) && line.last() != '\n' ==> meaning_of(
                line,
                store_prefix,
            ) == Meaning::Garbage
        }),
        ({
            let path = store_prefix + basename;
            basename.len() > 0 && basename.last() != '\n' && utf8::encode_utf8(path).len() != 65536
                ==> meaning_of(path, store_prefix) == Meaning::Root(basename)
        }),
        store_prefix.len() > 0 && store_prefix.last() != '\n' ==> meaning_of(
            store_prefix.push('\n'),
            store_prefix,
        ) == Meaning::Garbage,
        ACK == 49,
        ACK as char == '1',
{
    let n = utf8::encode_utf8(line).len();
    if line.len() > 0 {
        utf8::encode_utf8_first_scalar(line);
        assert(utf8::encode_scalar(line[0] as u32).len() > 0);
        assert(n > 0);
    } else {
        assert(line =~= Seq::empty());
        assert(n == 0);
    }
    match text::after_prefix(line, store_prefix) {
        Some(rest) => crate::graph::lemma_prefix_joins(line, store_prefix, rest),
        None => {},
    }
    let path = store_prefix + basename;
    if basename.len() > 0 && basename.last() != '\n' {
        assert(path.last() == basename.last());
        utf8::encode_utf8_first_scalar(path);
        assert(utf8::encode_scalar(path[0] as u32).len() > 0);
        crate::graph::lemma_prefix_joins(path, store_prefix, basename);
    }
    if store_prefix.len() > 0 && store_prefix.last() != '\n' {
        let bare = store_prefix.push('\n');
        let none: Seq<char> = Seq::empty();
        assert(bare.drop_last() =~= store_prefix);
        assert(text::trim_end(bare, '\n') == store_prefix) by {
            assert(text::trim_end(store_prefix, '\n') == store_prefix);
        }
        assert(store_prefix + none =~= store_prefix);
        crate::graph::lemma_prefix_joins(store_prefix, store_prefix, none);
        utf8::encode_utf8_first_scalar(bare);
        assert(utf8::encode_scalar(bare[0] as u32).len() > 0);
    }
}

} // verus!
