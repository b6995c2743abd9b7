//! Text as sequences of characters: slicing, prefixes and concatenation.
use vstd::prelude::*;
use vstd::utf8;

verus! {

/// `String::push` appends one character to the end of the string.
pub assume_specification[ String::push ](s: &mut String, c: char)
    ensures
        final(s)@ == old(s)@.push(c),
;

/// `String::from_utf8` gives the text that the bytes encode, and fails exactly
/// when they are not UTF-8.
#[verifier::external_body]
fn string_from_utf8(bytes: Vec<u8>) -> (r: Option<String>)
    ensures
        r is Some <==> utf8::valid_utf8(bytes@),
        r matches Some(s) ==> s@ == utf8::decode_utf8(bytes@),
{
    String::from_utf8(bytes).ok()
}

/// The text that stands for `bytes`, with U+FFFD in place of what is not UTF-8.
pub uninterp spec fn lossy(bytes: Seq<u8>) -> Seq<char>;

/// `String::from_utf8_lossy` gives the text that stands for the bytes: the one
/// that they encode, where they are UTF-8.
#[verifier::external_body]
pub(crate) fn lossy_text(bytes: &[u8]) -> (r: String)
    ensures
        r@ == lossy(bytes@),
        utf8::valid_utf8(bytes@) ==> r@ == utf8::decode_utf8(bytes@),
{
    String::from_utf8_lossy(bytes).into_owned()
}

/// The text that `bytes` encode, if they are UTF-8.
pub open spec fn decoded(bytes: Seq<u8>) -> Option<Seq<char>> {
    if utf8::valid_utf8(bytes) {
        Some(utf8::decode_utf8(bytes))
    } else {
        None
    }
}

/// The text that `bytes` encode, or `None` when they are not UTF-8.
pub fn decode_text(bytes: &[u8]) -> (r: Option<String>)
    ensures
        match r {
            Some(s) => decoded(bytes@) == Some(s@),
            None => decoded(bytes@) is None,
        },
{
    string_from_utf8(copy_bytes(bytes))
}

/// The bytes of `v`.
pub fn copy_bytes(v: &[u8]) -> (r: Vec<u8>)
    ensures
        r@ == v@,
{
    let mut r: Vec<u8> = Vec::new();
    r.extend_from_slice(v);
    assert(r@ =~= v@);
    r
}

/// True when `s` begins with `prefix`.
pub open spec fn starts_with(s: Seq<char>, prefix: Seq<char>) -> bool {
    prefix.len() <= s.len() && s.subrange(0, prefix.len() as int) == prefix
}

/// What follows `prefix` in `s`, when `s` begins with it.
pub open spec fn after_prefix(s: Seq<char>, prefix: Seq<char>) -> Option<Seq<char>> {
    if starts_with(s, prefix) {
        Some(s.subrange(prefix.len() as int, s.len() as int))
    } else {
        None
    }
}

/// True when `s` ends with `suffix`.
pub open spec fn ends_with(s: Seq<char>, suffix: Seq<char>) -> bool {
    suffix.len() <= s.len() && s.subrange(s.len() - suffix.len(), s.len() as int) == suffix
}

/// What precedes `suffix` in `s`, when `s` ends with it.
pub open spec fn before_suffix(s: Seq<char>, suffix: Seq<char>) -> Option<Seq<char>> {
    if ends_with(s, suffix) {
        Some(s.subrange(0, s.len() - suffix.len()))
    } else {
        None
    }
}

/// True when `needle` occurs in `s` at position `at`.
pub open spec fn occurs_at(s: Seq<char>, needle: Seq<char>, at: int) -> bool {
    0 <= at && at + needle.len() <= s.len() && s.subrange(at, at + needle.len()) == needle
}

/// True when `needle` occurs somewhere in `s`.
pub open spec fn has_text(s: Seq<char>, needle: Seq<char>) -> bool {
    exists|at: int| occurs_at(s, needle, at)
}

/// The characters of `s`.
pub fn chars_of(s: &str) -> (v: Vec<char>)
    ensures
        v@ == s@,
{
    let mut v: Vec<char> = Vec::new();
    for c in it: s.chars()
        invariant
            it.seq() == s@,
            v@ == s@.take(it.index()),
    {
        v.push(c);
        assert(s@.take(it.index() + 1) =~= s@.take(it.index()).push(c));
    }
    assert(s@.take(s@.len() as int) =~= s@);
    v
}

/// The text made of the characters of `chars` from `from` up to `to`.
pub fn text_of(chars: &[char], from: usize, to: usize) -> (s: String)
    requires
        from <= to <= chars@.len(),
    ensures
        s@ == chars@.subrange(from as int, to as int),
{
    let mut s = String::new();
    let mut i: usize = from;
    while i < to
        invariant
            from <= i <= to <= chars@.len(),
            s@ == chars@.subrange(from as int, i as int),
        decreases to - i,
    {
        s.push(chars[i]);
        i += 1;
        assert(chars@.subrange(from as int, i as int) =~= chars@.subrange(
            from as int,
            i - 1,
        ).push(chars@[i - 1]));
    }
    s
}

/// True when the two texts are the same.
pub fn same_text(a: &str, b: &str) -> (r: bool)
    ensures
        r == (a@ == b@),
{
    let x = chars_of(a);
    let y = chars_of(b);
    same_chars(&x, &y)
}

/// True when the two slices hold the same characters.
pub fn same_chars(x: &[char], y: &[char]) -> (r: bool)
    ensures
        r == (x@ == y@),
{
    if x.len() != y.len() {
        return false;
    }
    let mut i: usize = 0;
    while i < x.len()
        invariant
            i <= x@.len(),
            x@.len() == y@.len(),
            forall|j: int| 0 <= j < i ==> x@[j] == y@[j],
        decreases x@.len() - i,
    {
        if x[i] != y[i] {
            return false;
        }
        i += 1;
    }
    assert(x@ =~= y@);
    true
}

/// True when `needle` occurs in `hay` at position `at`.
pub fn chars_at(hay: &[char], needle: &[char], at: usize) -> (r: bool)
    ensures
        r == occurs_at(hay@, needle@, at as int),
{
    if at > hay.len() || needle.len() > hay.len() - at {
        return false;
    }
    let n: usize = hay.len();
    let mut i: usize = 0;
    while i < needle.len()
        invariant
            i <= needle@.len(),
            n == hay@.len(),
            at + needle@.len() <= n,
            forall|j: int| 0 <= j < i ==> hay@[at + j] == needle@[j],
        decreases needle@.len() - i,
    {
        if hay[at + i] != needle[i] {
            assert(hay@.subrange(at as int, at + needle@.len())[i as int] != needle@[i as int]);
            return false;
        }
        i += 1;
    }
    assert(hay@.subrange(at as int, at + needle@.len()) =~= needle@);
    true
}

/// What follows `prefix` in `s`, or `None` when `s` does not begin with it.
pub fn strip_prefix(s: &str, prefix: &str) -> (r: Option<String>)
    ensures
        match r {
            Some(rest) => after_prefix(s@, prefix@) == Some(rest@),
            None => after_prefix(s@, prefix@) is None,
        },
{
    let x = chars_of(s);
    let p = chars_of(prefix);
    if chars_at(&x, &p, 0) {
        Some(text_of(&x, p.len(), x.len()))
    } else {
        None
    }
}

/// What precedes `suffix` in `s`, or `None` when `s` does not end with it.
pub fn strip_suffix(s: &str, suffix: &str) -> (r: Option<String>)
    ensures
        match r {
            Some(rest) => before_suffix(s@, suffix@) == Some(rest@),
            None => before_suffix(s@, suffix@) is None,
        },
{
    let x = chars_of(s);
    let p = chars_of(suffix);
    if p.len() <= x.len() && chars_at(&x, &p, x.len() - p.len()) {
        Some(text_of(&x, 0, x.len() - p.len()))
    } else {
        None
    }
}

/// True when `needle` occurs in `s`.
pub fn contains_text(s: &str, needle: &str) -> (r: bool)
    ensures
        r == has_text(s@, needle@),
{
    let x = chars_of(s);
    let p = chars_of(needle);
    if p.len() > x.len() {
        return false;
    }
    let last: usize = x.len() - p.len();
    let mut at: usize = 0;
    while at < last
        invariant
            x@ == s@,
            p@ == needle@,
            at <= last,
            forall|j: int| 0 <= j < at ==> !occurs_at(s@, needle@, j),
        decreases last - at,
    {
        if chars_at(&x, &p, at) {
            return true;
        }
        at += 1;
    }
    chars_at(&x, &p, last)
}

/// `s` without the characters `c` at its end.
pub open spec fn trim_end(s: Seq<char>, c: char) -> Seq<char>
    decreases s.len(),
{
    if s.len() > 0 && s.last() == c {
        trim_end(s.drop_last(), c)
    } else {
        s
    }
}

/// `s` without the characters `c` at its end.
pub fn trim_end_char(s: &str, c: char) -> (r: String)
    ensures
        r@ == trim_end(s@, c),
{
    let x = chars_of(s);
    let mut end: usize = x.len();
    assert(x@.take(end as int) =~= x@);
    while end > 0 && x[end - 1] == c
        invariant
            x@ == s@,
            end <= x@.len(),
            trim_end(x@.take(end as int), c) == trim_end(s@, c),
        decreases end,
    {
        assert(x@.take(end as int).drop_last() =~= x@.take(end - 1));
        end -= 1;
    }
    assert(x@.take(end as int) =~= x@.subrange(0, end as int));
    text_of(&x, 0, end)
}

/// The texts of `v`.
pub open spec fn views(v: Seq<String>) -> Seq<Seq<char>> {
    v.map_values(|s: String| s@)
}

/// A copy of the texts of `v`.
pub fn copy_texts(v: &[String]) -> (r: Vec<String>)
    ensures
        views(r@) == views(v@),
{
    let mut r: Vec<String> = Vec::new();
    let mut i: usize = 0;
    while i < v.len()
        invariant
            i <= v@.len(),
            r@.len() == i,
            forall|j: int| 0 <= j < i ==> (#[trigger] r@[j])@ == v@[j]@,
        decreases v@.len() - i,
    {
        r.push(v[i].clone());
        i += 1;
    }
    assert(views(r@) =~= views(v@));
    r
}

/// True when `s` ends with the character `c`.
pub fn ends_with_char(s: &str, c: char) -> (r: bool)
    ensures
        r == (s@.len() > 0 && s@.last() == c),
{
    let x = chars_of(s);
    x.len() > 0 && x[x.len() - 1] == c
}

/// `a` followed by `b`.
pub fn join(a: &str, b: &str) -> (r: String)
    ensures
        r@ == a@ + b@,
{
    a.to_owned().concat(b)
}

/// `a`, `b` and `c` one after the other.
pub fn join3(a: &str, b: &str, c: &str) -> (r: String)
    ensures
        r@ == a@ + b@ + c@,
{
    a.to_owned().concat(b).concat(c)
}

/// `at` is the first place from `from` on where `needle` occurs in `s`.
pub open spec fn is_first_at(s: Seq<char>, needle: Seq<char>, from: int, at: int) -> bool {
    &&& from <= at
    &&& occurs_at(s, needle, at)
    &&& forall|j: int| from <= j < at ==> !occurs_at(s, needle, j)
}

/// The first place from `from` on where `needle` occurs in `hay`.
pub fn find_from(hay: &[char], needle: &[char], from: usize) -> (r: Option<usize>)
    ensures
        match r {
            Some(at) => is_first_at(hay@, needle@, from as int, at as int),
            None => forall|j: int| from <= j ==> !occurs_at(hay@, needle@, j),
        },
{
    if needle.len() > hay.len() {
        return None;
    }
    let last: usize = hay.len() - needle.len();
    let mut at: usize = from;
    while at <= last
        invariant
            from <= at,
            last == hay@.len() - needle@.len(),
            at <= last + 1 || at == from,
            forall|j: int| from <= j < at ==> !occurs_at(hay@, needle@, j),
        decreases last + 1 - at,
    {
        if chars_at(hay, needle, at) {
            return Some(at);
        }
        if at == last {
            return None;
        }
        at += 1;
    }
    None
}

/// The characters that separate words: Unicode's white space.
pub open spec fn is_white(c: char) -> bool {
    ||| '\u{9}' <= c <= '\u{d}'
    ||| c == ' '
    ||| c == '\u{85}'
    ||| c == '\u{a0}'
    ||| c == '\u{1680}'
    ||| '\u{2000}' <= c <= '\u{200a}'
    ||| c == '\u{2028}'
    ||| c == '\u{2029}'
    ||| c == '\u{202f}'
    ||| c == '\u{205f}'
    ||| c == '\u{3000}'
}

/// True when `c` is white space.
pub fn is_white_char(c: char) -> (r: bool)
    ensures
        r == is_white(c),
{
    ('\u{9}' <= c && c <= '\u{d}') || c == ' ' || c == '\u{85}' || c == '\u{a0}' || c == '\u{1680}'
        || ('\u{2000}' <= c && c <= '\u{200a}') || c == '\u{2028}' || c == '\u{2029}' || c
        == '\u{202f}' || c == '\u{205f}' || c == '\u{3000}'
}

/// `s` without the white space at its end.
pub open spec fn trim_end_white(s: Seq<char>) -> Seq<char>
    decreases s.len(),
{
    if s.len() > 0 && is_white(s.last()) {
        trim_end_white(s.drop_last())
    } else {
        s
    }
}

/// `s` without the white space at its beginning.
pub open spec fn trim_start_white(s: Seq<char>) -> Seq<char>
    decreases s.len(),
{
    if s.len() > 0 && is_white(s[0]) {
        trim_start_white(s.drop_first())
    } else {
        s
    }
}

/// `s` without the white space at its ends.
pub open spec fn trimmed(s: Seq<char>) -> Seq<char> {
    trim_end_white(trim_start_white(s))
}

/// `s` without the white space at its ends.
pub fn trim(s: &str) -> (r: String)
    ensures
        r@ == trimmed(s@),
{
    let x = chars_of(s);
    let mut start: usize = 0;
    assert(x@.skip(0) =~= x@);
    while start < x.len() && is_white_char(x[start])
        invariant
            x@ == s@,
            start <= x@.len(),
            trim_start_white(x@.skip(start as int)) == trim_start_white(s@),
        decreases x@.len() - start,
    {
        assert(x@.skip(start as int).drop_first() =~= x@.skip(start + 1));
        start += 1;
    }
    let ghost rest = x@.skip(start as int);
    assert(rest == trim_start_white(s@));
    let mut end: usize = x.len();
    assert(x@.subrange(start as int, end as int) =~= rest);
    while end > start && is_white_char(x[end - 1])
        invariant
            x@ == s@,
            start <= end <= x@.len(),
            trim_end_white(x@.subrange(start as int, end as int)) == trimmed(s@),
        decreases end,
    {
        assert(x@.subrange(start as int, end as int).drop_last() =~= x@.subrange(
            start as int,
            end - 1,
        ));
        end -= 1;
    }
    text_of(&x, start, end)
}

/// The words of `s`: its longest runs without white space, and the run at the
/// end, which may be empty and still growing.
pub open spec fn words_and_rest(s: Seq<char>) -> (Seq<Seq<char>>, Seq<char>)
    decreases s.len(),
{
    if s.len() == 0 {
        (Seq::empty(), Seq::empty())
    } else {
        let (words, rest) = words_and_rest(s.drop_last());
        if !is_white(s.last()) {
            (words, rest.push(s.last()))
        } else if rest.len() > 0 {
            (words.push(rest), Seq::empty())
        } else {
            (words, rest)
        }
    }
}

/// The words of `s`: its longest runs without white space.
pub open spec fn words(s: Seq<char>) -> Seq<Seq<char>> {
    let (words, rest) = words_and_rest(s);
    if rest.len() > 0 {
        words.push(rest)
    } else {
        words
    }
}

/// The words of `s`: its longest runs without white space.
pub fn split_words(s: &str) -> (r: Vec<String>)
    ensures
        views(r@) == words(s@),
{
    let x = chars_of(s);
    let mut r: Vec<String> = Vec::new();
    let mut rest = String::new();
    let mut len: usize = 0;
    let mut i: usize = 0;
    proof {
        assert(x@.take(0) =~= Seq::empty());
        assert(views(r@) =~= Seq::empty());
        assert(rest@ =~= Seq::empty());
    }
    while i < x.len()
        invariant
            x@ == s@,
            i <= x@.len(),
            len <= i,
            (views(r@), rest@) == words_and_rest(x@.take(i as int)),
            len == rest@.len(),
        decreases x@.len() - i,
    {
        assert(x@.take(i + 1).drop_last() =~= x@.take(i as int));
        let c: char = x[i];
        if !is_white_char(c) {
            rest.push(c);
            len += 1;
        } else if len > 0 {
            let ghost r0 = r@;
            let ghost word = rest@;
            r.push(rest);
            rest = String::new();
            len = 0;
            assert(views(r@) =~= views(r0).push(word));
            assert(rest@ =~= Seq::empty());
        }
        i += 1;
    }
    assert(x@.take(i as int) =~= x@);
    if len > 0 {
        let ghost r0 = r@;
        let ghost word = rest@;
        r.push(rest);
        assert(views(r@) =~= views(r0).push(word));
    }
    r
}

/// What precedes the suffix of a text is what comes before it.
pub proof fn lemma_suffix_joins(s: Seq<char>, suffix: Seq<char>, rest: Seq<char>)
    ensures
        before_suffix(s, suffix) == Some(rest) <==> s == rest + suffix,
{
    if before_suffix(s, suffix) == Some(rest) {
        assert(s =~= rest + suffix);
    }
    if s == rest + suffix {
        assert(s.subrange(s.len() - suffix.len(), s.len() as int) =~= suffix);
        assert(s.subrange(0, s.len() - suffix.len()) =~= rest);
    }
}

/// A text is its prefix or its suffix and the rest, and nothing is taken off a
/// text that does not begin or end so.
pub proof fn law_affixes_come_off(s: Seq<char>, affix: Seq<char>, rest: Seq<char>)
    ensures
        after_prefix(s, affix) == Some(rest) <==> s == affix + rest,
        before_suffix(s, affix) == Some(rest) <==> s == rest + affix,
        starts_with(s, affix) <==> exists|tail: Seq<char>| s == #[trigger] (affix + tail),
        ends_with(s, affix) <==> exists|head: Seq<char>| s == #[trigger] (head + affix),
{
    let n = affix.len() as int;
    if s == affix + rest {
        assert(s.subrange(0, n) =~= affix);
        assert(s.subrange(n, s.len() as int) =~= rest);
    }
    if starts_with(s, affix) {
        assert(s =~= affix + s.subrange(n, s.len() as int));
    }
    if exists|tail: Seq<char>| s == #[trigger] (affix + tail) {
        let tail = choose|tail: Seq<char>| s == #[trigger] (affix + tail);
        assert(s.subrange(0, n) =~= affix);
    }
    if s == rest + affix {
        assert(s.subrange(s.len() - n, s.len() as int) =~= affix);
        assert(s.subrange(0, s.len() - n) =~= rest);
    }
    if ends_with(s, affix) {
        assert(s =~= s.subrange(0, s.len() - n) + affix);
    }
    if exists|head: Seq<char>| s == #[trigger] (head + affix) {
        let head = choose|head: Seq<char>| s == #[trigger] (head + affix);
        assert(s.subrange(s.len() - n, s.len() as int) =~= affix);
    }
}

/// A text occurs in another exactly if the other is the text with something
/// before and behind it.
pub proof fn law_texts_are_found(s: Seq<char>, needle: Seq<char>)
    ensures
        has_text(s, needle) <==> exists|before: Seq<char>, after: Seq<char>|
            s == #[trigger] (before + needle + after),
{
    if has_text(s, needle) {
        let at = choose|at: int| occurs_at(s, needle, at);
        let before = s.take(at);
        let after = s.skip(at + needle.len());
        let whole = before + needle + after;
        assert forall|i: int| 0 <= i < s.len() implies s[i] == whole[i] by {
            if at <= i < at + needle.len() {
                assert(s.subrange(at, at + needle.len())[i - at] == needle[i - at]);
            }
        }
        assert(s =~= whole);
    }
    if exists|before: Seq<char>, after: Seq<char>| s == #[trigger] (before + needle + after) {
        let (before, after) = choose|before: Seq<char>, after: Seq<char>|
            s == #[trigger] (before + needle + after);
        let at = before.len() as int;
        assert(s.subrange(at, at + needle.len()) =~= needle);
        assert(occurs_at(s, needle, at));
    }
}

/// Only the given character is taken off the end of a text, and all of it that
/// stands there.
pub proof fn law_trailing_characters_come_off(s: Seq<char>, c: char)
    ensures
        trim_end(s, c).len() <= s.len(),
        s.take(trim_end(s, c).len() as int) == trim_end(s, c),
        forall|i: int| trim_end(s, c).len() <= i < s.len() ==> #[trigger] s[i] == c,
        trim_end(s, c).len() > 0 ==> trim_end(s, c).last() != c,
    decreases s.len(),
{
    if s.len() > 0 && s.last() == c {
        let init = s.drop_last();
        law_trailing_characters_come_off(init, c);
        let n = trim_end(s, c).len() as int;
        assert(s.take(n) =~= init.take(n));
        assert forall|i: int| n <= i < s.len() implies #[trigger] s[i] == c by {
            if i < init.len() {
                assert(init[i] == c);
            }
        }
    } else {
        assert(s.take(s.len() as int) =~= s);
    }
}

/// Of the characters of ASCII, the space and those from the tab to the carriage
/// return separate words.
pub proof fn law_spaces_are_white(c: char)
    requires
        c <= '\u{7f}',
    ensures
        is_white(c) <==> c == ' ' || c == '\t' || c == '\n' || c == '\r' || c == '\u{b}' || c
            == '\u{c}',
{
}

proof fn lemma_trim_start(s: Seq<char>)
    ensures
        ({
            let r = trim_start_white(s);
            &&& r.len() <= s.len()
            &&& s.skip(s.len() - r.len()) == r
            &&& forall|i: int| 0 <= i < s.len() - r.len() ==> is_white(#[trigger] s[i])
            &&& r.len() > 0 ==> !is_white(r[0])
        }),
    decreases s.len(),
{
    let r = trim_start_white(s);
    if s.len() > 0 && is_white(s[0]) {
        let rest = s.drop_first();
        lemma_trim_start(rest);
        assert(s.skip(s.len() - r.len()) =~= rest.skip(rest.len() - r.len()));
        assert forall|i: int| 0 <= i < s.len() - r.len() implies is_white(#[trigger] s[i]) by {
            if i > 0 {
                assert(rest[i - 1] == s[i]);
            }
        }
    } else {
        assert(s.skip(0) =~= s);
    }
}

proof fn lemma_trim_end(s: Seq<char>)
    ensures
        ({
            let r = trim_end_white(s);
            &&& r.len() <= s.len()
            &&& s.take(r.len() as int) == r
            &&& forall|i: int| r.len() <= i < s.len() ==> is_white(#[trigger] s[i])
            &&& r.len() > 0 ==> !is_white(r.last())
        }),
    decreases s.len(),
{
    let r = trim_end_white(s);
    if s.len() > 0 && is_white(s.last()) {
        let init = s.drop_last();
        lemma_trim_end(init);
        assert(s.take(r.len() as int) =~= init.take(r.len() as int));
        assert forall|i: int| r.len() <= i < s.len() implies is_white(#[trigger] s[i]) by {
            if i < init.len() {
                assert(init[i] == s[i]);
            }
        }
    } else {
        assert(s.take(s.len() as int) =~= s);
    }
}

/// Only white space is taken off the two ends of a text, and all of it that
/// stands there.
pub proof fn law_white_ends_come_off(s: Seq<char>)
    ensures
        trimmed(s).len() > 0 ==> !is_white(trimmed(s)[0]) && !is_white(trimmed(s).last()),
        exists|before: Seq<char>, after: Seq<char>| {
            &&& s == #[trigger] (before + trimmed(s) + after)
            &&& forall|i: int| 0 <= i < before.len() ==> is_white(#[trigger] before[i])
            &&& forall|i: int| 0 <= i < after.len() ==> is_white(#[trigger] after[i])
        },
{
    lemma_trim_start(s);
    let rest = trim_start_white(s);
    lemma_trim_end(rest);
    let core = trimmed(s);
    let k = s.len() - rest.len();
    let before = s.take(k);
    let after = rest.skip(core.len() as int);
    assert(s =~= before + rest) by {
        assert forall|i: int| k <= i < s.len() implies s[i] == rest[i - k] by {
            assert(s.skip(k)[i - k] == rest[i - k]);
        }
    }
    assert(rest =~= core + after) by {
        assert forall|i: int| 0 <= i < core.len() implies rest[i] == core[i] by {
            assert(rest.take(core.len() as int)[i] == core[i]);
        }
    }
    let whole = before + core + after;
    assert(before + (core + after) =~= whole);
    assert(s == whole);
    assert forall|i: int| 0 <= i < before.len() implies is_white(#[trigger] before[i]) by {
        assert(before[i] == s[i]);
    }
    assert forall|i: int| 0 <= i < after.len() implies is_white(#[trigger] after[i]) by {
        assert(after[i] == rest[core.len() + i]);
    }
    if core.len() > 0 {
        assert(rest[0] == core[0]);
    }
}

/// A text without white space at its ends is found inside any white space.
pub proof fn law_trimming_finds_the_core(before: Seq<char>, core: Seq<char>, after: Seq<char>)
    requires
        core.len() > 0,
        !is_white(core[0]),
        !is_white(core.last()),
        forall|i: int| 0 <= i < before.len() ==> is_white(#[trigger] before[i]),
        forall|i: int| 0 <= i < after.len() ==> is_white(#[trigger] after[i]),
    ensures
        trimmed(before + core + after) == core,
    decreases before.len() + after.len(),
{
    let s = before + core + after;
    if before.len() > 0 {
        assert(is_white(before[0]));
        assert(s.drop_first() =~= before.drop_first() + core + after);
        assert forall|i: int| 0 <= i < before.drop_first().len() implies is_white(
            #[trigger] before.drop_first()[i],
        ) by {
            assert(before.drop_first()[i] == before[i + 1]);
        }
        law_trimming_finds_the_core(before.drop_first(), core, after);
    } else {
        assert(s =~= core + after);
        assert(s[0] == core[0]);
        assert(trim_start_white(s) == s);
        lemma_trim_tail(core, after);
    }
}

proof fn lemma_trim_tail(core: Seq<char>, after: Seq<char>)
    requires
        core.len() > 0,
        !is_white(core.last()),
        forall|i: int| 0 <= i < after.len() ==> is_white(#[trigger] after[i]),
    ensures
        trim_end_white(core + after) == core,
    decreases after.len(),
{
    let s = core + after;
    if after.len() == 0 {
        assert(s =~= core);
    } else {
        let init = after.drop_last();
        assert(is_white(after[after.len() - 1]));
        assert forall|i: int| 0 <= i < init.len() implies is_white(#[trigger] init[i]) by {
            assert(init[i] == after[i]);
        }
        assert(s.drop_last() =~= core + init);
        lemma_trim_tail(core, init);
    }
}

/// White space behind a text adds no word, and what stands behind white space
/// without any in it is one more word.
pub proof fn law_words_stand_between_spaces(s: Seq<char>, white: char, word: Seq<char>)
    requires
        is_white(white),
        forall|i: int| 0 <= i < word.len() ==> !is_white(#[trigger] word[i]),
    ensures
        words(s.push(white)) == words(s),
        word.len() > 0 ==> words(s.push(white) + word) == words(s).push(word),
        word.len() > 0 ==> words(word) == seq![word],
        words(Seq::empty()).len() == 0,
{
    assert(s.push(white).drop_last() =~= s);
    lemma_word_grows(s.push(white), word);
    lemma_word_grows(Seq::empty(), word);
    assert(Seq::<char>::empty() + word =~= word);
    if word.len() > 0 {
        assert(words(word) =~= seq![word]);
    }
}

proof fn lemma_word_grows(s: Seq<char>, word: Seq<char>)
    requires
        words_and_rest(s).1.len() == 0,
        forall|i: int| 0 <= i < word.len() ==> !is_white(#[trigger] word[i]),
    ensures
        words_and_rest(s + word) == (words_and_rest(s).0, word),
    decreases word.len(),
{
    if word.len() == 0 {
        assert(s + word =~= s);
        assert(words_and_rest(s).1 =~= word);
    } else {
        let init = word.drop_last();
        assert forall|i: int| 0 <= i < init.len() implies !is_white(#[trigger] init[i]) by {
            assert(init[i] == word[i]);
        }
        lemma_word_grows(s, init);
        assert((s + word).drop_last() =~= s + init);
        assert(!is_white(word[word.len() - 1]));
        assert(init.push(word.last()) =~= word);
    }
}

} // verus!
