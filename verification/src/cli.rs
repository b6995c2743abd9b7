//! The command lines of the two tools.
use crate::numbers;
use crate::optimise::Options;
use crate::text;
use vstd::prelude::*;

verus! {

/// The arguments that `pico_args` has not handed out yet.
#[verifier::external_type_specification]
#[verifier::external_body]
pub struct ExArguments(pico_args::Arguments);

/// An error of `pico_args`.
#[verifier::external_type_specification]
#[verifier::external_body]
pub struct ExPicoError(pico_args::Error);

/// The arguments that are left.
pub uninterp spec fn left(args: pico_args::Arguments) -> Seq<Seq<char>>;

/// A key as `pico_args` wants it: a long one, or a dash and one character.
pub open spec fn is_key(key: Seq<char>) -> bool {
    key.len() >= 2 && key[0] == '-' && (key[1] == '-' || key.len() == 2)
}

/// The position of the first argument that is `key`, or their number.
pub open spec fn position(args: Seq<Seq<char>>, key: Seq<char>) -> int
    decreases args.len(),
{
    if args.len() == 0 || args[0] == key {
        0
    } else {
        1 + position(args.drop_first(), key)
    }
}

/// The arguments without the one at position `i`.
pub open spec fn without(args: Seq<Seq<char>>, i: int) -> Seq<Seq<char>> {
    args.take(i) + args.skip(i + 1)
}

/// Whether a flag is given, and the arguments without its first mention.
pub open spec fn flag(args: Seq<Seq<char>>, key: Seq<char>) -> (bool, Seq<Seq<char>>) {
    let i = position(args, key);
    if i < args.len() {
        (true, without(args, i))
    } else {
        (false, args)
    }
}

/// The value of an option, if it is given, and the arguments without the two.
/// `None` when the option is given without a value.
pub open spec fn option(args: Seq<Seq<char>>, key: Seq<char>) -> Option<
    (Option<Seq<char>>, Seq<Seq<char>>),
> {
    let i = position(args, key);
    if i >= args.len() {
        Some((None, args))
    } else if i + 1 >= args.len() {
        None
    } else {
        Some((Some(args[i + 1]), without(without(args, i), i)))
    }
}

/// `pico_args::Arguments::from_vec` takes the arguments as they are.
#[verifier::external_body]
fn arguments(args: Vec<String>) -> (r: pico_args::Arguments)
    ensures
        left(r) == text::views(args@),
{
    pico_args::Arguments::from_vec(args.into_iter().map(Into::into).collect())
}

/// `pico_args::Arguments::contains` tells whether the key is among the
/// arguments, and removes the first that is equal to it. Keys of another form
/// are refused by an assertion.
#[verifier::external_body]
fn take_flag(args: &mut pico_args::Arguments, key: &'static str) -> (r: bool)
    requires
        is_key(key@),
    ensures
        (r, left(*final(args))) == flag(left(*old(args)), key@),
{
    args.contains(key)
}

/// `pico_args::Arguments::opt_value_from_str` for a text gives the argument
/// behind the key and removes the two. It fails when nothing follows the key,
/// and then leaves the arguments alone.
#[verifier::external_body]
fn take_option(args: &mut pico_args::Arguments, key: &'static str) -> (r: Result<
    Option<String>,
    pico_args::Error,
>)
    requires
        is_key(key@),
    ensures
        match r {
            Ok(Some(v)) => option(left(*old(args)), key@) == Some((Some(v@), left(*final(args)))),
            Ok(None) => option(left(*old(args)), key@) == Some(
                (None::<Seq<char>>, left(*final(args))),
            ),
            Err(_) => option(left(*old(args)), key@) is None,
        },
{
    args.opt_value_from_str(key)
}

/// `pico_args::Arguments::finish` gives the arguments that are left. All of
/// them are texts, as they were made from texts.
#[verifier::external_body]
fn remaining(args: pico_args::Arguments) -> (r: Vec<String>)
    ensures
        text::views(r@) == left(args),
{
    args.finish().into_iter().map(|a| a.to_string_lossy().into_owned()).collect()
}

/// Why a command line was rejected.
pub enum CliError {
    /// The option needs a value.
    MissingValue(String),
    /// The option cannot have this value, and why.
    InvalidValue { key: String, value: String, cause: String },
    /// An argument that is not understood, a known one that it may stand for,
    /// and all that is left.
    Unexpected { arg: String, suggestion: Option<String>, rest: Vec<String> },
    /// The number of jobs is zero.
    NoJobs,
}

/// What a rejected command line was rejected for.
pub enum CliFault {
    MissingValue(Seq<char>),
    InvalidValue(Seq<char>, Seq<char>, Seq<char>),
    Unexpected(Seq<Seq<char>>),
    NoJobs,
}

impl View for CliError {
    type V = CliFault;

    open spec fn view(&self) -> CliFault {
        match self {
            CliError::MissingValue(key) => CliFault::MissingValue(key@),
            CliError::InvalidValue { key, value, cause } => CliFault::InvalidValue(
                key@,
                value@,
                cause@,
            ),
            CliError::Unexpected { rest, .. } => CliFault::Unexpected(text::views(rest@)),
            CliError::NoJobs => CliFault::NoJobs,
        }
    }
}

/// The smaller of two numbers.
pub open spec fn min2(a: int, b: int) -> int {
    if a <= b {
        a
    } else {
        b
    }
}

/// How many characters must be inserted, deleted or replaced to turn one text
/// into the other.
pub open spec fn edit_distance(a: Seq<char>, b: Seq<char>) -> int
    decreases a.len() + b.len(),
{
    if a.len() == 0 {
        b.len() as int
    } else if b.len() == 0 {
        a.len() as int
    } else {
        let replace = edit_distance(a.drop_last(), b.drop_last()) + if a.last() == b.last() {
            0int
        } else {
            1int
        };
        let delete = edit_distance(a.drop_last(), b) + 1;
        let insert = edit_distance(a, b.drop_last()) + 1;
        min2(replace, min2(delete, insert))
    }
}

proof fn lemma_distance_bound(a: Seq<char>, b: Seq<char>)
    ensures
        0 <= edit_distance(a, b) <= a.len() + b.len(),
    decreases a.len() + b.len(),
{
    if a.len() > 0 && b.len() > 0 {
        lemma_distance_bound(a.drop_last(), b.drop_last());
        lemma_distance_bound(a.drop_last(), b);
        lemma_distance_bound(a, b.drop_last());
    }
}

/// The edit distance of two texts.
fn distance(a: &[char], b: &[char]) -> (r: u128)
    ensures
        r == edit_distance(a@, b@),
{
    let n: usize = a.len();
    let m: usize = b.len();
    let mut row: Vec<u128> = vec![0];
    let mut j: usize = 0;
    while j < m
        invariant
            m == b@.len(),
            j <= m,
            row@.len() == j + 1,
            forall|k: int|
                0 <= k <= j ==> #[trigger] row@[k] == edit_distance(a@.take(0), b@.take(k)),
        decreases m - j,
    {
        j += 1;
        row.push(j as u128);
    }
    let mut i: usize = 0;
    while i < n
        invariant
            n == a@.len(),
            m == b@.len(),
            i <= n,
            row@.len() == m + 1,
            forall|k: int|
                0 <= k <= m ==> #[trigger] row@[k] == edit_distance(a@.take(i as int), b@.take(k)),
        decreases n - i,
    {
        let ghost now = a@.take(i + 1);
        assert(now.drop_last() =~= a@.take(i as int));
        assert(b@.take(0) =~= Seq::empty());
        let mut next: Vec<u128> = vec![i as u128 + 1];
        let mut k: usize = 0;
        while k < m
            invariant
                n == a@.len(),
                m == b@.len(),
                i < n,
                k <= m,
                now == a@.take(i + 1),
                now.drop_last() == a@.take(i as int),
                row@.len() == m + 1,
                forall|x: int|
                    0 <= x <= m ==> #[trigger] row@[x] == edit_distance(
                        a@.take(i as int),
                        b@.take(x),
                    ),
                next@.len() == k + 1,
                forall|x: int|
                    0 <= x <= k ==> #[trigger] next@[x] == edit_distance(now, b@.take(x)),
            decreases m - k,
        {
            proof {
                assert(b@.take(k + 1).drop_last() =~= b@.take(k as int));
                lemma_distance_bound(a@.take(i as int), b@.take(k as int));
                lemma_distance_bound(a@.take(i as int), b@.take(k + 1));
                lemma_distance_bound(now, b@.take(k as int));
            }
            let cost: u128 = if a[i] == b[k] {
                0
            } else {
                1
            };
            let replace: u128 = row[k] + cost;
            let delete: u128 = row[k + 1] + 1;
            let insert: u128 = next[k] + 1;
            let other: u128 = if delete <= insert {
                delete
            } else {
                insert
            };
            let best: u128 = if replace <= other {
                replace
            } else {
                other
            };
            let ghost next0 = next@;
            next.push(best);
            proof {
                assert forall|x: int| 0 <= x <= k + 1 implies #[trigger] next@[x]
                    == edit_distance(now, b@.take(x)) by {
                    if x <= k {
                        assert(next@[x] == next0[x]);
                    }
                }
            }
            k += 1;
        }
        row = next;
        i += 1;
    }
    proof {
        assert(a@.take(n as int) =~= a@);
        assert(b@.take(m as int) =~= b@);
    }
    row[m]
}

/// How far a known argument may be from a mistyped one.
pub const MAX_TYPOS: u128 = 2;

/// `i` is the known argument closest to `arg`: none is closer, and none before
/// it is as close.
pub open spec fn is_closest(arg: Seq<char>, known: Seq<Seq<char>>, i: int) -> bool {
    &&& 0 <= i < known.len()
    &&& edit_distance(arg, known[i]) <= MAX_TYPOS
    &&& forall|j: int|
        0 <= j < known.len() ==> edit_distance(arg, known[i]) <= edit_distance(
            arg,
            #[trigger] known[j],
        )
    &&& forall|j: int|
        0 <= j < i ==> edit_distance(arg, known[i]) < edit_distance(arg, #[trigger] known[j])
}

/// The known argument closest to `arg`, if one is close enough.
pub fn closest_match(arg: &str, known: &[String]) -> (r: Option<String>)
    ensures
        match r {
            Some(s) => exists|i: int| #[trigger]
                is_closest(arg@, text::views(known@), i) && s@ == known@[i]@,
            None => forall|i: int|
                0 <= i < known@.len() ==> edit_distance(arg@, (#[trigger] known@[i])@) > MAX_TYPOS,
        },
{
    let a = text::chars_of(arg);
    let ghost all = text::views(known@);
    let mut best: Option<usize> = None;
    let mut best_distance: u128 = MAX_TYPOS;
    let mut i: usize = 0;
    while i < known.len()
        invariant
            a@ == arg@,
            all == text::views(known@),
            i <= known@.len(),
            best_distance <= MAX_TYPOS,
            match best {
                Some(k) => {
                    &&& k < i
                    &&& best_distance == edit_distance(arg@, all[k as int])
                    &&& forall|j: int|
                        0 <= j < i ==> best_distance <= edit_distance(arg@, #[trigger] all[j])
                    &&& forall|j: int|
                        0 <= j < k ==> best_distance < edit_distance(arg@, #[trigger] all[j])
                },
                None => {
                    &&& best_distance == MAX_TYPOS
                    &&& forall|j: int|
                        0 <= j < i ==> edit_distance(arg@, #[trigger] all[j]) > MAX_TYPOS
                },
            },
        decreases known@.len() - i,
    {
        assert(all[i as int] == known@[i as int]@);
        let b = text::chars_of(known[i].as_str());
        let d: u128 = distance(&a, &b);
        let closer = match best {
            Some(_k) => d < best_distance,
            None => d <= MAX_TYPOS,
        };
        if closer {
            best = Some(i);
            best_distance = d;
        }
        i += 1;
    }
    match best {
        Some(k) => {
            assert(is_closest(arg@, all, k as int));
            Some(known[k].clone())
        },
        None => {
            assert forall|i: int| 0 <= i < known@.len() implies edit_distance(
                arg@,
                (#[trigger] known@[i])@,
            ) > MAX_TYPOS by {
                assert(all[i] == known@[i]@);
            }
            None
        },
    }
}

/// The texts of an optional value.
pub open spec fn text_of_option(v: Option<String>) -> Option<Seq<char>> {
    match v {
        Some(s) => Some(s@),
        None => None,
    }
}

/// Take an option off the arguments.
fn get_option(args: &mut pico_args::Arguments, key: &'static str) -> (r: Result<
    Option<String>,
    CliError,
>)
    requires
        is_key(key@),
    ensures
        match r {
            Ok(v) => option(left(*old(args)), key@) == Some(
                (text_of_option(v), left(*final(args))),
            ),
            Err(e) => option(left(*old(args)), key@) is None && e@ == CliFault::MissingValue(key@),
        },
{
    match take_option(args, key) {
        Ok(v) => Ok(v),
        Err(_e) => Err(CliError::MissingValue(key.to_owned())),
    }
}

/// A setting that is switched on or off.
pub open spec fn truth(s: Seq<char>) -> Option<bool> {
    if s == "true"@ {
        Some(true)
    } else if s == "false"@ {
        Some(false)
    } else {
        None
    }
}

/// What std says of a text that is no truth value.
pub uninterp spec fn bool_fault(s: Seq<char>) -> Seq<char>;

/// `str::parse` for `bool` reads `true` and `false`. What it says of any other
/// text depends on that text.
#[verifier::external_body]
fn bool_cause(s: &str) -> (r: Option<String>)
    ensures
        match r {
            Some(cause) => truth(s@) is None && cause@ == bool_fault(s@),
            None => truth(s@) is Some,
        },
{
    s.parse::<bool>().err().map(|e| e.to_string())
}

fn parse_bool(s: &str) -> (r: Option<bool>)
    ensures
        r == truth(s@),
{
    if text::same_text(s, "true") {
        Some(true)
    } else if text::same_text(s, "false") {
        Some(false)
    } else {
        None
    }
}

/// A number that an index can have.
pub open spec fn small_number(s: Seq<char>) -> Option<usize> {
    match numbers::number(s) {
        Some(n) => if n <= usize::MAX {
            Some(n as usize)
        } else {
            None
        },
        None => None,
    }
}

/// What std says of a text that is no number that an index can have.
pub uninterp spec fn usize_fault(s: Seq<char>) -> Seq<char>;

/// `str::parse` for `usize` reads an optional plus sign and digits, within the
/// range of the type. What it says of any other text depends on that text.
#[verifier::external_body]
fn usize_cause(s: &str) -> (r: Option<String>)
    ensures
        match r {
            Some(cause) => small_number(s@) is None && cause@ == usize_fault(s@),
            None => small_number(s@) is Some,
        },
{
    s.parse::<usize>().err().map(|e| e.to_string())
}

/// What std says of a text that is no number of 64 bits.
pub uninterp spec fn u64_fault(s: Seq<char>) -> Seq<char>;

/// `str::parse` for `u64` reads an optional plus sign and digits, within 64 bits.
/// What it says of any other text depends on that text.
#[verifier::external_body]
fn u64_cause(s: &str) -> (r: Option<String>)
    ensures
        match r {
            Some(cause) => numbers::number(s@) is None && cause@ == u64_fault(s@),
            None => numbers::number(s@) is Some,
        },
{
    s.parse::<u64>().err().map(|e| e.to_string())
}

fn parse_usize(s: &str) -> (r: Option<usize>)
    ensures
        r == small_number(s@),
{
    match numbers::parse_u64(s) {
        Some(n) => {
            if n <= usize::MAX as u64 {
                Some(n as usize)
            } else {
                None
            }
        },
        None => None,
    }
}

fn cause_or_empty(cause: Option<String>) -> (r: String)
    ensures
        cause matches Some(s) ==> r@ == s@,
        cause is None ==> r@ == Seq::<char>::empty(),
{
    match cause {
        Some(s) => s,
        None => String::new(),
    }
}

/// The value of an option that is a switch, and the arguments without it.
pub open spec fn bool_option(args: Seq<Seq<char>>, key: Seq<char>) -> Result<
    (Option<bool>, Seq<Seq<char>>),
    CliFault,
> {
    match option(args, key) {
        None => Err(CliFault::MissingValue(key)),
        Some((None, rest)) => Ok((None, rest)),
        Some((Some(v), rest)) => match truth(v) {
            Some(b) => Ok((Some(b), rest)),
            None => Err(CliFault::InvalidValue(key, v, bool_fault(v))),
        },
    }
}

fn get_bool(args: &mut pico_args::Arguments, key: &'static str) -> (r: Result<
    Option<bool>,
    CliError,
>)
    requires
        is_key(key@),
    ensures
        match r {
            Ok(v) => bool_option(left(*old(args)), key@) == Ok::<_, CliFault>(
                (v, left(*final(args))),
            ),
            Err(e) => bool_option(left(*old(args)), key@) == Err::<
                (Option<bool>, Seq<Seq<char>>),
                _,
            >(e@),
        },
{
    match get_option(args, key) {
        Err(e) => Err(e),
        Ok(None) => Ok(None),
        Ok(Some(v)) => match parse_bool(v.as_str()) {
            Some(b) => Ok(Some(b)),
            None => {
                let cause = cause_or_empty(bool_cause(v.as_str()));
                Err(CliError::InvalidValue { key: key.to_owned(), value: v, cause })
            },
        },
    }
}

/// The value of an option that is a count, and the arguments without it.
pub open spec fn count_option(args: Seq<Seq<char>>, key: Seq<char>) -> Result<
    (Option<usize>, Seq<Seq<char>>),
    CliFault,
> {
    match option(args, key) {
        None => Err(CliFault::MissingValue(key)),
        Some((None, rest)) => Ok((None, rest)),
        Some((Some(v), rest)) => match small_number(v) {
            Some(n) => Ok((Some(n), rest)),
            None => Err(CliFault::InvalidValue(key, v, usize_fault(v))),
        },
    }
}

fn get_count(args: &mut pico_args::Arguments, key: &'static str) -> (r: Result<
    Option<usize>,
    CliError,
>)
    requires
        is_key(key@),
    ensures
        match r {
            Ok(v) => count_option(left(*old(args)), key@) == Ok::<_, CliFault>(
                (v, left(*final(args))),
            ),
            Err(e) => count_option(left(*old(args)), key@) == Err::<
                (Option<usize>, Seq<Seq<char>>),
                _,
            >(e@),
        },
{
    match get_option(args, key) {
        Err(e) => Err(e),
        Ok(None) => Ok(None),
        Ok(Some(v)) => match parse_usize(v.as_str()) {
            Some(n) => Ok(Some(n)),
            None => {
                let cause = cause_or_empty(usize_cause(v.as_str()));
                Err(CliError::InvalidValue { key: key.to_owned(), value: v, cause })
            },
        },
    }
}

/// The value of an option that is a size in bytes, and the arguments without it.
pub open spec fn bytes_option(args: Seq<Seq<char>>, key: Seq<char>) -> Result<
    (Option<u64>, Seq<Seq<char>>),
    CliFault,
> {
    match option(args, key) {
        None => Err(CliFault::MissingValue(key)),
        Some((None, rest)) => Ok((None, rest)),
        Some((Some(v), rest)) => match numbers::number(v) {
            Some(n) => Ok((Some(n), rest)),
            None => Err(CliFault::InvalidValue(key, v, u64_fault(v))),
        },
    }
}

fn get_bytes(args: &mut pico_args::Arguments, key: &'static str) -> (r: Result<
    Option<u64>,
    CliError,
>)
    requires
        is_key(key@),
    ensures
        match r {
            Ok(v) => bytes_option(left(*old(args)), key@) == Ok::<_, CliFault>(
                (v, left(*final(args))),
            ),
            Err(e) => bytes_option(left(*old(args)), key@) == Err::<
                (Option<u64>, Seq<Seq<char>>),
                _,
            >(e@),
        },
{
    match get_option(args, key) {
        Err(e) => Err(e),
        Ok(None) => Ok(None),
        Ok(Some(v)) => match numbers::parse_u64(v.as_str()) {
            Some(n) => Ok(Some(n)),
            None => {
                let cause = cause_or_empty(u64_cause(v.as_str()));
                Err(CliError::InvalidValue { key: key.to_owned(), value: v, cause })
            },
        },
    }
}

/// The collector's settings up to the size to keep free, which is still a text.
pub struct ArgsHead {
    pub delete_old: bool,
    pub delete_older_than: Option<String>,
    pub dry_run: bool,
    pub ensure_free: Option<String>,
    rest: pico_args::Arguments,
}

/// What an `ArgsHead` holds.
pub struct HeadView {
    pub delete_old: bool,
    pub delete_older_than: Option<Seq<char>>,
    pub dry_run: bool,
    pub ensure_free: Option<Seq<char>>,
    pub rest: Seq<Seq<char>>,
}

impl View for ArgsHead {
    type V = HeadView;

    closed spec fn view(&self) -> HeadView {
        HeadView {
            delete_old: self.delete_old,
            delete_older_than: text_of_option(self.delete_older_than),
            dry_run: self.dry_run,
            ensure_free: text_of_option(self.ensure_free),
            rest: left(self.rest),
        }
    }
}

/// How the first arguments of the collector are understood. `None` means that
/// help is wanted. With `-d`, `--delete-old` is not taken as well.
pub open spec fn head_of(args: Seq<Seq<char>>) -> Result<Option<HeadView>, CliFault> {
    let (help, a0) = flag(args, "--help"@);
    if help {
        Ok(None)
    } else {
        match option(a0, "--delete-older-than"@) {
            None => Err(CliFault::MissingValue("--delete-older-than"@)),
            Some((older, a1)) => {
                let (short, a2) = flag(a1, "-d"@);
                let (long, a3) = if short {
                    (false, a2)
                } else {
                    flag(a2, "--delete-old"@)
                };
                let (dry, a4) = flag(a3, "--dry-run"@);
                match option(a4, "--ensure-free"@) {
                    None => Err(CliFault::MissingValue("--ensure-free"@)),
                    Some((free, a5)) => Ok(
                        Some(
                            HeadView {
                                delete_old: short || long || older is Some,
                                delete_older_than: older,
                                dry_run: dry,
                                ensure_free: free,
                                rest: a5,
                            },
                        ),
                    ),
                }
            },
        }
    }
}

/// Understand the first arguments of the collector. `None` means that help is
/// wanted.
pub fn parse_args_head(args: Vec<String>) -> (r: Result<Option<ArgsHead>, CliError>)
    ensures
        match r {
            Ok(None) => head_of(text::views(args@)) == Ok::<Option<HeadView>, CliFault>(None),
            Ok(Some(h)) => head_of(text::views(args@)) == Ok::<Option<HeadView>, CliFault>(
                Some(h@),
            ),
            Err(e) => head_of(text::views(args@)) == Err::<Option<HeadView>, CliFault>(e@),
        },
{
    proof {
        reveal_strlit("--help");
        reveal_strlit("--delete-older-than");
        reveal_strlit("-d");
        reveal_strlit("--delete-old");
        reveal_strlit("--dry-run");
        reveal_strlit("--ensure-free");
    }
    let mut rest = arguments(args);
    if take_flag(&mut rest, "--help") {
        return Ok(None);
    }
    let delete_older_than = match get_option(&mut rest, "--delete-older-than") {
        Ok(v) => v,
        Err(e) => {
            return Err(e);
        },
    };
    let delete_old = take_flag(&mut rest, "-d") || take_flag(&mut rest, "--delete-old")
        || delete_older_than.is_some();
    let dry_run = take_flag(&mut rest, "--dry-run");
    let ensure_free = match get_option(&mut rest, "--ensure-free") {
        Ok(v) => v,
        Err(e) => {
            return Err(e);
        },
    };
    Ok(Some(ArgsHead { delete_old, delete_older_than, dry_run, ensure_free, rest }))
}

/// The arguments that the collector knows.
pub open spec fn gc_arguments() -> Seq<Seq<char>> {
    seq![
        "-d"@,
        "--delete-old"@,
        "--delete-older-than"@,
        "--dry-run"@,
        "--ensure-free"@,
        "--max-freed"@,
        "--keep-recent"@,
        "--no-vacuum"@,
        "--chunk-size"@,
        "--no-prune-devshell-roots"@,
        "--no-prune-auto-roots"@,
        "--keep-outputs"@,
        "--keep-derivations"@,
        "--store-dir"@,
        "--state-dir"@,
        "--help"@,
    ]
}

fn known_gc_arguments() -> (known: Vec<String>)
    ensures
        text::views(known@) == gc_arguments(),
{
    let mut known: Vec<String> = Vec::new();
    known.push("-d".to_owned());
    known.push("--delete-old".to_owned());
    known.push("--delete-older-than".to_owned());
    known.push("--dry-run".to_owned());
    known.push("--ensure-free".to_owned());
    known.push("--max-freed".to_owned());
    known.push("--keep-recent".to_owned());
    known.push("--no-vacuum".to_owned());
    known.push("--chunk-size".to_owned());
    known.push("--no-prune-devshell-roots".to_owned());
    known.push("--no-prune-auto-roots".to_owned());
    known.push("--keep-outputs".to_owned());
    known.push("--keep-derivations".to_owned());
    known.push("--store-dir".to_owned());
    known.push("--state-dir".to_owned());
    known.push("--help".to_owned());
    assert(text::views(known@) =~= gc_arguments());
    known
}

/// The arguments that the optimiser knows.
pub open spec fn optimise_arguments() -> Seq<Seq<char>> {
    seq![
        "--dry-run"@,
        "--min-size"@,
        "-j"@,
        "--jobs"@,
        "--store-dir"@,
        "--state-dir"@,
        "--help"@,
    ]
}

fn known_optimise_arguments() -> (known: Vec<String>)
    ensures
        text::views(known@) == optimise_arguments(),
{
    let mut known: Vec<String> = Vec::new();
    known.push("--dry-run".to_owned());
    known.push("--min-size".to_owned());
    known.push("-j".to_owned());
    known.push("--jobs".to_owned());
    known.push("--store-dir".to_owned());
    known.push("--state-dir".to_owned());
    known.push("--help".to_owned());
    assert(text::views(known@) =~= optimise_arguments());
    known
}

/// The error names the first argument left, and suggests the known one closest
/// to it, if one is close enough.
pub open spec fn explains(e: CliError, known: Seq<Seq<char>>) -> bool {
    e matches CliError::Unexpected { arg, suggestion, rest } ==> {
        &&& rest@.len() > 0
        &&& arg@ == rest@[0]@
        &&& match suggestion {
            Some(s) => exists|i: int| #[trigger] is_closest(arg@, known, i) && s@ == known[i],
            None => forall|i: int|
                0 <= i < known.len() ==> edit_distance(arg@, #[trigger] known[i]) > MAX_TYPOS,
        }
    }
}

/// The error for arguments that are left.
fn unexpected(rest: Vec<String>, known: &[String]) -> (e: CliError)
    requires
        rest@.len() > 0,
    ensures
        e@ == CliFault::Unexpected(text::views(rest@)),
        explains(e, text::views(known@)),
{
    let arg = rest[0].clone();
    let suggestion = closest_match(arg.as_str(), known);
    proof {
        let all = text::views(known@);
        if suggestion is None {
            assert forall|i: int| 0 <= i < all.len() implies edit_distance(
                arg@,
                #[trigger] all[i],
            ) > MAX_TYPOS by {
                assert(all[i] == known@[i]@);
            }
        } else {
            let i = choose|i: int| #[trigger]
                is_closest(arg@, all, i) && suggestion->0@ == known@[i]@;
            assert(all[i] == known@[i]@);
        }
    }
    CliError::Unexpected { arg, suggestion, rest }
}

/// The collector's settings.
pub struct Args {
    pub delete_old: bool,
    pub delete_older_than: Option<String>,
    pub dry_run: bool,
    pub ensure_free: Option<u64>,
    pub max_freed: Option<u64>,
    pub keep_recent: Option<String>,
    pub no_vacuum: bool,
    pub chunk_size: Option<usize>,
    pub prune_devshell: bool,
    pub prune_auto: bool,
    pub keep_outputs: Option<bool>,
    pub keep_derivations: Option<bool>,
    pub store_dir: String,
    pub state_dir: String,
}

/// What `Args` hold.
pub struct ArgsView {
    pub delete_old: bool,
    pub delete_older_than: Option<Seq<char>>,
    pub dry_run: bool,
    pub ensure_free: Option<u64>,
    pub max_freed: Option<u64>,
    pub keep_recent: Option<Seq<char>>,
    pub no_vacuum: bool,
    pub chunk_size: Option<usize>,
    pub prune_devshell: bool,
    pub prune_auto: bool,
    pub keep_outputs: Option<bool>,
    pub keep_derivations: Option<bool>,
    pub store_dir: Seq<char>,
    pub state_dir: Seq<char>,
}

impl View for Args {
    type V = ArgsView;

    open spec fn view(&self) -> ArgsView {
        ArgsView {
            delete_old: self.delete_old,
            delete_older_than: text_of_option(self.delete_older_than),
            dry_run: self.dry_run,
            ensure_free: self.ensure_free,
            max_freed: self.max_freed,
            keep_recent: text_of_option(self.keep_recent),
            no_vacuum: self.no_vacuum,
            chunk_size: self.chunk_size,
            prune_devshell: self.prune_devshell,
            prune_auto: self.prune_auto,
            keep_outputs: self.keep_outputs,
            keep_derivations: self.keep_derivations,
            store_dir: self.store_dir@,
            state_dir: self.state_dir@,
        }
    }
}

/// A value, or what stands for it where none is given.
pub open spec fn value_or(v: Option<Seq<char>>, default: Seq<char>) -> Seq<char> {
    match v {
        Some(s) => s,
        None => default,
    }
}

/// The directories at the end of both command lines, and that nothing is left.
pub open spec fn dirs_of(args: Seq<Seq<char>>) -> Result<(Seq<char>, Seq<char>), CliFault> {
    match option(args, "--store-dir"@) {
        None => Err(CliFault::MissingValue("--store-dir"@)),
        Some((store, a1)) => match option(a1, "--state-dir"@) {
            None => Err(CliFault::MissingValue("--state-dir"@)),
            Some((state, a2)) => if a2.len() > 0 {
                Err(CliFault::Unexpected(a2))
            } else {
                Ok((value_or(store, "/nix/store"@), value_or(state, "/nix/var/nix"@)))
            },
        },
    }
}

fn text_or(v: Option<String>, default: &str) -> (r: String)
    ensures
        r@ == value_or(text_of_option(v), default@),
{
    match v {
        Some(s) => s,
        None => default.to_owned(),
    }
}

fn get_dirs(args: pico_args::Arguments, known: &[String]) -> (r: Result<
    (String, String),
    CliError,
>)
    ensures
        match r {
            Ok((store, state)) => dirs_of(left(args)) == Ok::<_, CliFault>((store@, state@)),
            Err(e) => dirs_of(left(args)) == Err::<(Seq<char>, Seq<char>), _>(e@) && explains(
                e,
                text::views(known@),
            ),
        },
{
    proof {
        reveal_strlit("--store-dir");
        reveal_strlit("--state-dir");
    }
    let mut args = args;
    let store = match get_option(&mut args, "--store-dir") {
        Ok(v) => v,
        Err(e) => {
            return Err(e);
        },
    };
    let state = match get_option(&mut args, "--state-dir") {
        Ok(v) => v,
        Err(e) => {
            return Err(e);
        },
    };
    let rest = remaining(args);
    assert(text::views(rest@).len() == rest@.len());
    if rest.len() > 0 {
        return Err(unexpected(rest, known));
    }
    Ok((text_or(store, "/nix/store"), text_or(state, "/nix/var/nix")))
}

/// How the arguments of the collector that follow the sizes are understood.
pub open spec fn switches_of(
    head: HeadView,
    ensure_free: Option<u64>,
    max_freed: Option<u64>,
    args: Seq<Seq<char>>,
) -> Result<ArgsView, CliFault> {
    match option(args, "--keep-recent"@) {
        None => Err(CliFault::MissingValue("--keep-recent"@)),
        Some((recent, a1)) => {
            let (no_vacuum, a2) = flag(a1, "--no-vacuum"@);
            match count_option(a2, "--chunk-size"@) {
                Err(e) => Err(e),
                Ok((chunk, a3)) => {
                    let (keep_shells, a4) = flag(a3, "--no-prune-devshell-roots"@);
                    let (keep_auto, a5) = flag(a4, "--no-prune-auto-roots"@);
                    match bool_option(a5, "--keep-outputs"@) {
                        Err(e) => Err(e),
                        Ok((outputs, a6)) => match bool_option(a6, "--keep-derivations"@) {
                            Err(e) => Err(e),
                            Ok((derivations, a7)) => match dirs_of(a7) {
                                Err(e) => Err(e),
                                Ok((store, state)) => Ok(
                                    ArgsView {
                                        delete_old: head.delete_old,
                                        delete_older_than: head.delete_older_than,
                                        dry_run: head.dry_run,
                                        ensure_free,
                                        max_freed,
                                        keep_recent: recent,
                                        no_vacuum,
                                        chunk_size: chunk,
                                        prune_devshell: !keep_shells,
                                        prune_auto: !keep_auto,
                                        keep_outputs: outputs,
                                        keep_derivations: derivations,
                                        store_dir: store,
                                        state_dir: state,
                                    },
                                ),
                            },
                        },
                    }
                },
            }
        },
    }
}

/// How the other arguments of the collector are understood.
pub open spec fn tail_of(head: HeadView, ensure_free: Option<u64>) -> Result<ArgsView, CliFault> {
    match bytes_option(head.rest, "--max-freed"@) {
        Err(e) => Err(e),
        Ok((max, a0)) => switches_of(head, ensure_free, max, a0),
    }
}

/// Understand the other arguments of the collector, once the size to keep free
/// is a number. A mistyped argument must not silently run a collection.
pub fn parse_args_tail(head: ArgsHead, ensure_free: Option<u64>) -> (r: Result<Args, CliError>)
    ensures
        match r {
            Ok(a) => tail_of(head@, ensure_free) == Ok::<ArgsView, CliFault>(a@),
            Err(e) => tail_of(head@, ensure_free) == Err::<ArgsView, CliFault>(e@) && explains(
                e,
                gc_arguments(),
            ),
        },
{
    proof {
        reveal_strlit("--max-freed");
        reveal_strlit("--keep-recent");
        reveal_strlit("--no-vacuum");
        reveal_strlit("--chunk-size");
        reveal_strlit("--no-prune-devshell-roots");
        reveal_strlit("--no-prune-auto-roots");
        reveal_strlit("--keep-outputs");
        reveal_strlit("--keep-derivations");
    }
    let mut rest = head.rest;
    let max_freed = match get_bytes(&mut rest, "--max-freed") {
        Ok(v) => v,
        Err(e) => {
            return Err(e);
        },
    };
    let keep_recent = match get_option(&mut rest, "--keep-recent") {
        Ok(v) => v,
        Err(e) => {
            return Err(e);
        },
    };
    let no_vacuum = take_flag(&mut rest, "--no-vacuum");
    let chunk_size = match get_count(&mut rest, "--chunk-size") {
        Ok(v) => v,
        Err(e) => {
            return Err(e);
        },
    };
    let keep_shells = take_flag(&mut rest, "--no-prune-devshell-roots");
    let keep_auto = take_flag(&mut rest, "--no-prune-auto-roots");
    let keep_outputs = match get_bool(&mut rest, "--keep-outputs") {
        Ok(v) => v,
        Err(e) => {
            return Err(e);
        },
    };
    let keep_derivations = match get_bool(&mut rest, "--keep-derivations") {
        Ok(v) => v,
        Err(e) => {
            return Err(e);
        },
    };
    let known = known_gc_arguments();
    match get_dirs(rest, &known) {
        Err(e) => Err(e),
        Ok((store_dir, state_dir)) => Ok(
            Args {
                delete_old: head.delete_old,
                delete_older_than: head.delete_older_than,
                dry_run: head.dry_run,
                ensure_free,
                max_freed,
                keep_recent,
                no_vacuum,
                chunk_size,
                prune_devshell: !keep_shells,
                prune_auto: !keep_auto,
                keep_outputs,
                keep_derivations,
                store_dir,
                state_dir,
            },
        ),
    }
}

/// What the optimiser's settings are.
pub struct OptionsView {
    pub store_dir: Seq<char>,
    pub state_dir: Seq<char>,
    pub dry_run: bool,
    pub min_size: u64,
    pub jobs: usize,
}

/// What `opts` hold.
pub open spec fn options_view(opts: Options) -> OptionsView {
    OptionsView {
        store_dir: opts.store_dir@,
        state_dir: opts.state_dir@,
        dry_run: opts.dry_run,
        min_size: opts.min_size,
        jobs: opts.jobs,
    }
}

/// How the arguments of the optimiser are understood. `None` means that help is
/// wanted. The long form of the number of jobs counts before the short one.
pub open spec fn optimiser_of(args: Seq<Seq<char>>, default_jobs: usize) -> Result<
    Option<OptionsView>,
    CliFault,
> {
    let (help, a0) = flag(args, "--help"@);
    if help {
        Ok(None)
    } else {
        let (dry, a1) = flag(a0, "--dry-run"@);
        match bytes_option(a1, "--min-size"@) {
            Err(e) => Err(e),
            Ok((min, a2)) => match count_option(a2, "--jobs"@) {
                Err(e) => Err(e),
                Ok((long, a3)) => match count_option(a3, "-j"@) {
                    Err(e) => Err(e),
                    Ok((short, a4)) => {
                        let jobs = match long {
                            Some(n) => n,
                            None => match short {
                                Some(n) => n,
                                None => default_jobs,
                            },
                        };
                        if (long is Some || short is Some) && jobs == 0 {
                            Err(CliFault::NoJobs)
                        } else {
                            match dirs_of(a4) {
                                Err(e) => Err(e),
                                Ok((store, state)) => Ok(
                                    Some(
                                        OptionsView {
                                            store_dir: store,
                                            state_dir: state,
                                            dry_run: dry,
                                            min_size: match min {
                                                Some(n) => n,
                                                None => 0,
                                            },
                                            jobs,
                                        },
                                    ),
                                ),
                            }
                        }
                    },
                },
            },
        }
    }
}

/// Understand the arguments of the optimiser. `parallelism` is what the machine
/// offers, if that is known. `None` means that help is wanted.
pub fn parse_optimise_args(args: Vec<String>, parallelism: Option<usize>) -> (r: Result<
    Option<Options>,
    CliError,
>)
    ensures
        ({
            let jobs = match parallelism {
                Some(n) => n,
                None => 4,
            };
            let want = optimiser_of(text::views(args@), jobs);
            match r {
                Ok(None) => want == Ok::<Option<OptionsView>, CliFault>(None),
                Ok(Some(o)) => want == Ok::<Option<OptionsView>, CliFault>(
                    Some(options_view(o)),
                ),
                Err(e) => want == Err::<Option<OptionsView>, CliFault>(e@) && explains(
                    e,
                    optimise_arguments(),
                ),
            }
        }),
{
    proof {
        reveal_strlit("--help");
        reveal_strlit("--dry-run");
        reveal_strlit("--min-size");
        reveal_strlit("--jobs");
        reveal_strlit("-j");
    }
    let mut rest = arguments(args);
    if take_flag(&mut rest, "--help") {
        return Ok(None);
    }
    let mut opts = Options::new(parallelism);
    opts.dry_run = take_flag(&mut rest, "--dry-run");
    match get_bytes(&mut rest, "--min-size") {
        Ok(Some(n)) => {
            opts.min_size = n;
        },
        Ok(None) => {},
        Err(e) => {
            return Err(e);
        },
    }
    let long = match get_count(&mut rest, "--jobs") {
        Ok(v) => v,
        Err(e) => {
            return Err(e);
        },
    };
    let short = match get_count(&mut rest, "-j") {
        Ok(v) => v,
        Err(e) => {
            return Err(e);
        },
    };
    let jobs = match long {
        Some(n) => Some(n),
        None => short,
    };
    if let Some(n) = jobs {
        if n == 0 {
            return Err(CliError::NoJobs);
        }
        opts.jobs = n;
    }
    let known = known_optimise_arguments();
    match get_dirs(rest, &known) {
        Err(e) => Err(e),
        Ok((store_dir, state_dir)) => {
            opts.store_dir = store_dir;
            opts.state_dir = state_dir;
            Ok(Some(opts))
        },
    }
}

proof fn lemma_position(args: Seq<Seq<char>>, key: Seq<char>)
    ensures
        0 <= position(args, key) <= args.len(),
        position(args, key) < args.len() ==> args[position(args, key)] == key,
    decreases args.len(),
{
    if args.len() > 0 && args[0] != key {
        lemma_position(args.drop_first(), key);
    }
}

/// Taking an argument out leaves every other text in.
proof fn lemma_without(args: Seq<Seq<char>>, i: int, x: Seq<char>)
    requires
        0 <= i < args.len(),
        args.contains(x),
        args[i] != x,
    ensures
        without(args, i).contains(x),
{
    let k = args.index_of(x);
    if k < i {
        assert(without(args, i)[k] == x);
    } else {
        assert(without(args, i)[k - 1] == x);
    }
}

proof fn lemma_flag_leaves(args: Seq<Seq<char>>, key: Seq<char>, x: Seq<char>)
    requires
        args.contains(x),
        x != key,
    ensures
        flag(args, key).1.contains(x),
{
    lemma_position(args, key);
    if position(args, key) < args.len() {
        lemma_without(args, position(args, key), x);
    }
}

proof fn lemma_option_leaves(args: Seq<Seq<char>>, key: Seq<char>, x: Seq<char>)
    requires
        args.contains(x),
        x != key,
    ensures
        option(args, key) matches Some((v, rest)) ==> v == Some(x) || rest.contains(x),
        option(args, key) matches Some((Some(_), _)) ==> args.contains(key),
{
    lemma_position(args, key);
    let i = position(args, key);
    if i + 1 < args.len() {
        lemma_without(args, i, x);
        assert(without(args, i)[i] == args[i + 1]);
        if args[i + 1] != x {
            lemma_without(without(args, i), i, x);
        }
    }
}

/// `x` is the text that one of the directories was read from.
pub open spec fn is_dir_value(
    args: Seq<Seq<char>>,
    store_dir: Seq<char>,
    state_dir: Seq<char>,
    x: Seq<char>,
) -> bool {
    ||| args.contains("--store-dir"@) && x == store_dir
    ||| args.contains("--state-dir"@) && x == state_dir
}

proof fn lemma_dirs_leave_nothing(args: Seq<Seq<char>>, x: Seq<char>)
    requires
        args.contains(x),
        x != "--store-dir"@,
        x != "--state-dir"@,
    ensures
        dirs_of(args) matches Ok((store, state)) ==> is_dir_value(args, store, state, x),
{
    lemma_option_leaves(args, "--store-dir"@, x);
    if let Some((store, a1)) = option(args, "--store-dir"@) {
        lemma_option_keeps(args, "--store-dir"@);
        if a1.contains(x) {
            lemma_option_leaves(a1, "--state-dir"@, x);
        }
    }
}

proof fn lemma_position_of_given(args: Seq<Seq<char>>, key: Seq<char>)
    requires
        args.contains(key),
    ensures
        position(args, key) < args.len(),
    decreases args.len(),
{
    if args[0] != key {
        let k = args.index_of(key);
        assert(args.drop_first()[k - 1] == key);
        lemma_position_of_given(args.drop_first(), key);
    }
}

/// What a flag leaves was there before.
proof fn lemma_flag_keeps(args: Seq<Seq<char>>, key: Seq<char>)
    ensures
        forall|y: Seq<char>| #[trigger] flag(args, key).1.contains(y) ==> args.contains(y),
{
    lemma_position(args, key);
    let i = position(args, key);
    assert forall|y: Seq<char>| #[trigger] flag(args, key).1.contains(y) implies args.contains(
        y,
    ) by {
        let rest = flag(args, key).1;
        let k = rest.index_of(y);
        if i < args.len() {
            assert(rest[k] == if k < i {
                args[k]
            } else {
                args[k + 1]
            });
        }
    }
}

/// What an option leaves was there before.
proof fn lemma_option_keeps(args: Seq<Seq<char>>, key: Seq<char>)
    requires
        option(args, key) is Some,
    ensures
        forall|y: Seq<char>| #[trigger]
            (option(args, key)->0).1.contains(y) ==> args.contains(y),
{
    lemma_position(args, key);
    let i = position(args, key);
    assert forall|y: Seq<char>| #[trigger] (option(args, key)->0).1.contains(y) implies args.contains(
        y,
    ) by {
        let rest = (option(args, key)->0).1;
        let k = rest.index_of(y);
        if i < args.len() {
            assert(rest[k] == if k < i {
                args[k]
            } else {
                args[k + 2]
            });
        }
    }
}

/// `x` is the text that a setting of the collector was read from.
pub open spec fn is_gc_value(
    args: Seq<Seq<char>>,
    head: HeadView,
    a: ArgsView,
    x: Seq<char>,
) -> bool {
    ||| head.delete_older_than == Some(x)
    ||| head.ensure_free == Some(x)
    ||| a.max_freed is Some && numbers::number(x) == a.max_freed
    ||| a.keep_recent == Some(x)
    ||| a.chunk_size is Some && small_number(x) == a.chunk_size
    ||| a.keep_outputs is Some && truth(x) == a.keep_outputs
    ||| a.keep_derivations is Some && truth(x) == a.keep_derivations
    ||| is_dir_value(args, a.store_dir, a.state_dir, x)
}

proof fn lemma_head_leaves(args: Seq<Seq<char>>, x: Seq<char>)
    requires
        args.contains(x),
        !gc_arguments().contains(x),
    ensures
        head_of(args) matches Ok(Some(h)) ==> h.delete_older_than == Some(x) || h.ensure_free
            == Some(x) || h.rest.contains(x),
        head_of(args) matches Ok(Some(h)) ==> forall|y: Seq<char>| #[trigger]
            h.rest.contains(y) ==> args.contains(y),
{
    let known = gc_arguments();
    assert(known[0] == "-d"@ && known[1] == "--delete-old"@ && known[2] == "--delete-older-than"@);
    assert(known[3] == "--dry-run"@ && known[4] == "--ensure-free"@ && known[15] == "--help"@);
    lemma_flag_leaves(args, "--help"@, x);
    lemma_flag_keeps(args, "--help"@);
    let a0 = flag(args, "--help"@).1;
    lemma_option_leaves(a0, "--delete-older-than"@, x);
    if let Some((older, a1)) = option(a0, "--delete-older-than"@) {
        lemma_option_keeps(a0, "--delete-older-than"@);
        let (short, a2) = flag(a1, "-d"@);
        lemma_flag_keeps(a1, "-d"@);
        lemma_flag_keeps(a2, "--delete-old"@);
        let a3 = if short {
            a2
        } else {
            flag(a2, "--delete-old"@).1
        };
        lemma_flag_keeps(a3, "--dry-run"@);
        let a4 = flag(a3, "--dry-run"@).1;
        if option(a4, "--ensure-free"@) is Some {
            lemma_option_keeps(a4, "--ensure-free"@);
        }
        if a1.contains(x) {
            lemma_flag_leaves(a1, "-d"@, x);
            lemma_flag_leaves(a2, "--delete-old"@, x);
            lemma_flag_leaves(a3, "--dry-run"@, x);
            lemma_option_leaves(a4, "--ensure-free"@, x);
        }
    }
}

proof fn lemma_switches_leave_nothing(
    head: HeadView,
    ensure_free: Option<u64>,
    max_freed: Option<u64>,
    args: Seq<Seq<char>>,
    x: Seq<char>,
)
    requires
        args.contains(x),
        !gc_arguments().contains(x),
    ensures
        switches_of(head, ensure_free, max_freed, args) matches Ok(a) ==> is_gc_value(
            args,
            head,
            a,
            x,
        ),
{
    let known = gc_arguments();
    assert(known[6] == "--keep-recent"@ && known[7] == "--no-vacuum"@ && known[8]
        == "--chunk-size"@);
    assert(known[9] == "--no-prune-devshell-roots"@ && known[10] == "--no-prune-auto-roots"@);
    assert(known[11] == "--keep-outputs"@ && known[12] == "--keep-derivations"@);
    assert(known[13] == "--store-dir"@ && known[14] == "--state-dir"@);
    lemma_option_leaves(args, "--keep-recent"@, x);
    if let Some((recent, a1)) = option(args, "--keep-recent"@) {
        if a1.contains(x) {
            lemma_flag_leaves(a1, "--no-vacuum"@, x);
            let a2 = flag(a1, "--no-vacuum"@).1;
            lemma_option_leaves(a2, "--chunk-size"@, x);
            if let Some((chunk, a3)) = option(a2, "--chunk-size"@) {
                if a3.contains(x) {
                    lemma_flag_leaves(a3, "--no-prune-devshell-roots"@, x);
                    let a4 = flag(a3, "--no-prune-devshell-roots"@).1;
                    lemma_flag_leaves(a4, "--no-prune-auto-roots"@, x);
                    let a5 = flag(a4, "--no-prune-auto-roots"@).1;
                    lemma_option_leaves(a5, "--keep-outputs"@, x);
                    if let Some((outputs, a6)) = option(a5, "--keep-outputs"@) {
                        if a6.contains(x) {
                            lemma_option_leaves(a6, "--keep-derivations"@, x);
                            if let Some((derivations, a7)) = option(a6, "--keep-derivations"@) {
                                if a7.contains(x) {
                                    lemma_dirs_leave_nothing(a7, x);
                                    lemma_option_keeps(args, "--keep-recent"@);
                                    lemma_flag_keeps(a1, "--no-vacuum"@);
                                    lemma_option_keeps(a2, "--chunk-size"@);
                                    lemma_flag_keeps(a3, "--no-prune-devshell-roots"@);
                                    lemma_flag_keeps(a4, "--no-prune-auto-roots"@);
                                    lemma_option_keeps(a5, "--keep-outputs"@);
                                    lemma_option_keeps(a6, "--keep-derivations"@);
                                }
                            }
                        }
                    }
                }
            }
        }
    }
}

/// A mistyped argument never runs a collection unnoticed: each argument of an
/// accepted command line is known, or is the text of a setting.
pub proof fn law_unknown_arguments_are_rejected(
    args: Seq<Seq<char>>,
    head: HeadView,
    ensure_free: Option<u64>,
    a: ArgsView,
    x: Seq<char>,
)
    requires
        head_of(args) == Ok::<Option<HeadView>, CliFault>(Some(head)),
        tail_of(head, ensure_free) == Ok::<ArgsView, CliFault>(a),
        args.contains(x),
    ensures
        gc_arguments().contains(x) || is_gc_value(args, head, a, x),
{
    if !gc_arguments().contains(x) {
        lemma_head_leaves(args, x);
        assert(gc_arguments()[5] == "--max-freed"@);
        if head.rest.contains(x) {
            lemma_option_leaves(head.rest, "--max-freed"@, x);
            if let Some((max, a0)) = option(head.rest, "--max-freed"@) {
                lemma_option_keeps(head.rest, "--max-freed"@);
                if a0.contains(x) {
                    lemma_switches_leave_nothing(head, ensure_free, a.max_freed, a0, x);
                }
            }
        }
    }
}

/// `x` is the text that a setting of the optimiser was read from, or a number of
/// jobs in its short form beside the long one, which counts.
pub open spec fn is_optimise_value(args: Seq<Seq<char>>, o: OptionsView, x: Seq<char>) -> bool {
    ||| args.contains("--min-size"@) && numbers::number(x) == Some(o.min_size)
    ||| (args.contains("--jobs"@) || args.contains("-j"@)) && small_number(x) == Some(o.jobs)
    ||| args.contains("--jobs"@) && args.contains("-j"@) && small_number(x) is Some
    ||| is_dir_value(args, o.store_dir, o.state_dir, x)
}

/// The same of the optimiser: each argument of an accepted command line is
/// known, or is the text of a setting.
pub proof fn law_unknown_optimiser_arguments_are_rejected(
    args: Seq<Seq<char>>,
    default_jobs: usize,
    o: OptionsView,
    x: Seq<char>,
)
    requires
        optimiser_of(args, default_jobs) == Ok::<Option<OptionsView>, CliFault>(Some(o)),
        args.contains(x),
    ensures
        optimise_arguments().contains(x) || is_optimise_value(args, o, x),
{
    if !optimise_arguments().contains(x) {
        let known = optimise_arguments();
        assert(known[0] == "--dry-run"@ && known[1] == "--min-size"@ && known[2] == "-j"@);
        assert(known[3] == "--jobs"@ && known[4] == "--store-dir"@ && known[5] == "--state-dir"@);
        assert(known[6] == "--help"@);
        lemma_flag_leaves(args, "--help"@, x);
        let a0 = flag(args, "--help"@).1;
        lemma_flag_leaves(a0, "--dry-run"@, x);
        let a1 = flag(a0, "--dry-run"@).1;
        lemma_option_leaves(a1, "--min-size"@, x);
        let (min, a2) = option(a1, "--min-size"@)->0;
        lemma_flag_keeps(args, "--help"@);
        lemma_flag_keeps(a0, "--dry-run"@);
        lemma_option_keeps(a1, "--min-size"@);
        if a2.contains(x) {
            lemma_option_leaves(a2, "--jobs"@, x);
            let (long, a3) = option(a2, "--jobs"@)->0;
            lemma_option_keeps(a2, "--jobs"@);
            if a3.contains(x) {
                lemma_option_leaves(a3, "-j"@, x);
                let (short, a4) = option(a3, "-j"@)->0;
                lemma_option_keeps(a3, "-j"@);
                if a4.contains(x) {
                    lemma_dirs_leave_nothing(a4, x);
                }
            }
        }
    }
}

/// Asking for help is always answered with it, whatever else is given.
pub proof fn law_help_wins(args: Seq<Seq<char>>, default_jobs: usize)
    requires
        args.contains("--help"@),
    ensures
        head_of(args) == Ok::<Option<HeadView>, CliFault>(None),
        optimiser_of(args, default_jobs) == Ok::<Option<OptionsView>, CliFault>(None),
{
    lemma_position_of_given(args, "--help"@);
}

/// A list of arguments with these texts, as std's `Debug` shows it.
pub uninterp spec fn debug_list(items: Seq<Seq<char>>) -> Seq<char>;

/// `format` shows a list of arguments by std's `Debug`. They are shown as the
/// system's strings, as `pico_args` holds them.
#[verifier::external_body]
fn shown_list(items: &Vec<String>) -> (r: String)
    ensures
        r@ == debug_list(text::views(items@)),
{
    let list = pico_args::Arguments::from_vec(items.iter().map(Into::into).collect());
    format!("{:?}", list.finish())
}

/// What a rejected command line is answered.
pub open spec fn answer(e: CliError) -> Seq<char> {
    match e {
        CliError::MissingValue(key) => "the '"@ + key@
            + "' option doesn't have an associated value"@,
        CliError::InvalidValue { value, cause, .. } => "failed to parse '"@ + value@ + "': "@
            + cause@,
        CliError::Unexpected { arg, suggestion, rest } => match suggestion {
            Some(s) => "unexpected argument '"@ + arg@ + "'; did you mean '"@ + s@ + "'?"@,
            None => "unexpected arguments: "@ + debug_list(text::views(rest@)) + " (see --help)"@,
        },
        CliError::NoJobs => "--jobs must be at least 1"@,
    }
}

impl CliError {
    /// What a rejected command line is answered.
    pub fn message(&self) -> (r: String)
        ensures
            r@ == answer(*self),
    {
        match self {
            CliError::MissingValue(key) => text::join3(
                "the '",
                key.as_str(),
                "' option doesn't have an associated value",
            ),
            CliError::InvalidValue { key: _, value, cause } => {
                let head = text::join3("failed to parse '", value.as_str(), "': ");
                text::join(head.as_str(), cause.as_str())
            },
            CliError::Unexpected { arg, suggestion, rest } => match suggestion {
                Some(s) => {
                    let head = text::join3("unexpected argument '", arg.as_str(), "'; did you mean '");
                    text::join3(head.as_str(), s.as_str(), "'?")
                },
                None => {
                    let list = shown_list(rest);
                    text::join3("unexpected arguments: ", list.as_str(), " (see --help)")
                },
            },
            CliError::NoJobs => "--jobs must be at least 1".to_owned(),
        }
    }
}

/// A goal for the space to free makes no sense for a dry run, which frees
/// nothing. Returns what such settings are answered.
pub fn contradiction(args: &Args) -> (r: Option<&'static str>)
    ensures
        match r {
            None => !args.dry_run || (args.ensure_free is None && args.max_freed is None),
            Some(s) => args.dry_run && if args.ensure_free is Some {
                s@ == "--ensure-free cannot be combined with --dry-run"@
            } else {
                args.max_freed is Some && s@
                    == "options --max-freed and --dry-run cannot be combined"@
            },
        },
{
    if args.dry_run && args.ensure_free.is_some() {
        Some("--ensure-free cannot be combined with --dry-run")
    } else if args.dry_run && args.max_freed.is_some() {
        Some("options --max-freed and --dry-run cannot be combined")
    } else {
        None
    }
}

/// What is to be freed.
#[derive(Clone, Copy, PartialEq, Eq, Structural)]
pub enum SpaceGoal {
    /// Nothing: enough is available.
    Met,
    /// Stop once this much is freed, if there is a limit.
    Limit(Option<u64>),
}

/// What is to be freed, when `available` bytes are available. A size to keep
/// free counts before a limit on what is freed.
pub fn space_goal(ensure_free: Option<u64>, max_freed: Option<u64>, available: u64) -> (r:
    SpaceGoal)
    ensures
        r == match ensure_free {
            Some(target) => if available >= target {
                SpaceGoal::Met
            } else {
                SpaceGoal::Limit(Some((target - available) as u64))
            },
            None => SpaceGoal::Limit(max_freed),
        },
        ensure_free matches Some(target) ==> match r {
            SpaceGoal::Met => available >= target,
            SpaceGoal::Limit(Some(need)) => need > 0 && available + need == target,
            SpaceGoal::Limit(None) => false,
        },
{
    match ensure_free {
        Some(target) => match space_to_free(target, available) {
            Some(need) => SpaceGoal::Limit(Some(need)),
            None => SpaceGoal::Met,
        },
        None => SpaceGoal::Limit(max_freed),
    }
}

/// How much must be freed to have `target` bytes available. `None` when they
/// are available already.
pub fn space_to_free(target: u64, available: u64) -> (r: Option<u64>)
    ensures
        r == if available >= target {
            None
        } else {
            Some((target - available) as u64)
        },
        match r {
            None => available >= target,
            Some(need) => need > 0 && available + need == target,
        },
{
    if available >= target {
        None
    } else {
        Some(target - available)
    }
}

/// Free bytes of a file system.
pub fn available_bytes(blocks: u64, fragment_size: u64) -> (r: u64)
    requires
        blocks * fragment_size <= u64::MAX,
    ensures
        r == blocks * fragment_size,
{
    blocks * fragment_size
}

/// The Unix time `ago` seconds before `now`, but not before the epoch.
pub fn recent_cutoff(now: u64, ago: u64) -> (r: i64)
    requires
        now <= i64::MAX,
    ensures
        r == if ago >= now {
            0
        } else {
            now - ago
        },
        r >= 0,
        r + ago >= now,
        r > 0 ==> r + ago == now,
{
    if ago >= now {
        0
    } else {
        (now - ago) as i64
    }
}

/// The distance of two texts is zero exactly if they are equal, is the same both
/// ways, and is at least the difference of their lengths and at most the greater
/// of these.
pub proof fn law_distance_tells_texts_apart(a: Seq<char>, b: Seq<char>)
    ensures
        edit_distance(a, b) == 0 <==> a == b,
        edit_distance(a, b) == edit_distance(b, a),
        a.len() - b.len() <= edit_distance(a, b),
        b.len() - a.len() <= edit_distance(a, b),
        edit_distance(a, b) <= a.len() || edit_distance(a, b) <= b.len(),
    decreases a.len() + b.len(),
{
    if a.len() > 0 && b.len() > 0 {
        law_distance_tells_texts_apart(a.drop_last(), b.drop_last());
        law_distance_tells_texts_apart(a.drop_last(), b);
        law_distance_tells_texts_apart(a, b.drop_last());
        if edit_distance(a, b) == 0 {
            assert(a =~= a.drop_last().push(a.last()));
            assert(b =~= b.drop_last().push(b.last()));
        }
    } else if a.len() == 0 {
        if b.len() == 0 {
            assert(a =~= b);
        }
    }
}

/// No detour is shorter: by way of a third text it takes at least as many
/// changes to turn one text into another.
pub proof fn law_detours_are_no_shorter(a: Seq<char>, b: Seq<char>, c: Seq<char>)
    ensures
        edit_distance(a, c) <= edit_distance(a, b) + edit_distance(b, c),
    decreases a.len() + b.len() + c.len(),
{
    law_distance_tells_texts_apart(a, b);
    law_distance_tells_texts_apart(b, c);
    lemma_distance_bound(a, c);
    if a.len() > 0 && b.len() > 0 && c.len() > 0 {
        let (a1, b1, c1) = (a.drop_last(), b.drop_last(), c.drop_last());
        law_detours_are_no_shorter(a1, b1, c1);
        law_detours_are_no_shorter(a1, b, c);
        law_detours_are_no_shorter(a, b, c1);
        law_detours_are_no_shorter(a, b1, c);
        law_detours_are_no_shorter(a, b1, c1);
        law_detours_are_no_shorter(a1, b1, c);
    }
}

/// One character more, one less or one that is another is one change, wherever
/// it stands.
pub proof fn law_one_typo_is_one_change(
    before: Seq<char>,
    c: char,
    d: char,
    after: Seq<char>,
)
    ensures
        edit_distance(before + seq![c] + after, before + after) == 1,
        edit_distance(before + after, before + seq![c] + after) == 1,
        c != d ==> edit_distance(before + seq![c] + after, before + seq![d] + after) == 1,
    decreases after.len(),
{
    let more = before + seq![c] + after;
    let less = before + after;
    let other = before + seq![d] + after;
    law_distance_tells_texts_apart(more, less);
    law_distance_tells_texts_apart(less, more);
    law_distance_tells_texts_apart(more, other);
    if after.len() == 0 {
        assert(more.drop_last() =~= before);
        assert(other.drop_last() =~= before);
        assert(less =~= before);
        law_distance_tells_texts_apart(before, before);
        if before.len() == 0 {
            assert(edit_distance(less, more) == 1);
        }
    } else {
        let init = after.drop_last();
        law_one_typo_is_one_change(before, c, d, init);
        assert(more.drop_last() =~= before + seq![c] + init);
        assert(less.drop_last() =~= before + init);
        assert(other.drop_last() =~= before + seq![d] + init);
    }
    if c != d {
        assert(more[before.len() as int] != other[before.len() as int]);
    }
}

/// Whenever a known argument is no more than two changes away, the closest one
/// is suggested, and one that is further away never is.
pub proof fn law_two_typos_are_forgiven(arg: Seq<char>, known: Seq<Seq<char>>, i: int)
    requires
        0 <= i < known.len(),
    ensures
        edit_distance(arg, known[i]) <= 2 ==> exists|k: int| #[trigger] is_closest(arg, known, k),
        edit_distance(arg, known[i]) > 2 ==> !is_closest(arg, known, i),
    decreases edit_distance(arg, known[i]), i,
{
    lemma_distance_bound(arg, known[i]);
    if edit_distance(arg, known[i]) <= 2 && !is_closest(arg, known, i) {
        if exists|j: int|
            0 <= j < known.len() && edit_distance(arg, #[trigger] known[j]) < edit_distance(
                arg,
                known[i],
            ) {
            let j = choose|j: int|
                0 <= j < known.len() && edit_distance(arg, #[trigger] known[j]) < edit_distance(
                    arg,
                    known[i],
                );
            lemma_distance_bound(arg, known[j]);
            law_two_typos_are_forgiven(arg, known, j);
        } else {
            let j = choose|j: int|
                0 <= j < i && edit_distance(arg, known[i]) >= edit_distance(
                    arg,
                    #[trigger] known[j],
                );
            assert(edit_distance(arg, known[j]) == edit_distance(arg, known[i]));
            law_two_typos_are_forgiven(arg, known, j);
        }
    }
}

/// A switch is `true` or `false`, letter for letter, and a count is a number
/// that an index can have.
pub proof fn law_values_are_read_literally(s: Seq<char>, b: bool, n: usize)
    ensures
        truth("true"@) == Some(true),
        truth("false"@) == Some(false),
        truth(s) is Some ==> s == "true"@ || s == "false"@,
        small_number(s) == Some(n) <==> numbers::number(s) == Some(n as u64),
{
    reveal_strlit("true");
    reveal_strlit("false");
    assert("true"@.len() != "false"@.len());
}

/// A flag counts wherever it stands. The value of an option is the argument
/// behind its first mention, and both go.
pub proof fn law_arguments_are_found(
    before: Seq<Seq<char>>,
    key: Seq<char>,
    value: Seq<char>,
    after: Seq<Seq<char>>,
)
    requires
        !before.contains(key),
    ensures
        flag(before + seq![key] + after, key) == (true, before + after),
        flag(before, key) == (false, before),
        option(before + seq![key, value] + after, key) == Some((Some(value), before + after)),
        option(before + seq![key], key) is None,
        option(before, key) == Some((None::<Seq<char>>, before)),
{
    let n = before.len() as int;
    let a = before + seq![key] + after;
    let b = before + seq![key, value] + after;
    let c = before + seq![key];
    assert(a[n] == key && b[n] == key && c[n] == key);
    assert(a.take(n) =~= before && b.take(n) =~= before);
    assert(c.take(n) =~= before && before.take(n) =~= before);
    lemma_first_mention(a, key, n, before);
    lemma_first_mention(b, key, n, before);
    lemma_first_mention(c, key, n, before);
    lemma_first_mention(before, key, n, before);
    assert(without(a, n) =~= before + after);
    assert(without(without(b, n), n) =~= before + after);
    assert(b[n + 1] == value);
}

proof fn lemma_first_mention(
    args: Seq<Seq<char>>,
    key: Seq<char>,
    n: int,
    before: Seq<Seq<char>>,
)
    requires
        0 <= n == before.len() <= args.len(),
        args.take(n) == before,
        !before.contains(key),
        n < args.len() ==> args[n] == key,
    ensures
        position(args, key) == n,
    decreases n,
{
    if n > 0 {
        assert(args[0] == args.take(n)[0]);
        assert(before.contains(before[0]));
        let rest = before.drop_first();
        assert(args.drop_first().take(n - 1) =~= rest);
        if rest.contains(key) {
            let k = choose|k: int| 0 <= k < rest.len() && rest[k] == key;
            assert(before[k + 1] == key);
        }
        lemma_first_mention(args.drop_first(), key, n - 1, rest);
    }
}

/// A flag is seen exactly if it is given.
proof fn lemma_flag_seen(args: Seq<Seq<char>>, key: Seq<char>)
    ensures
        flag(args, key).0 <==> args.contains(key),
{
    lemma_position(args, key);
    if args.contains(key) {
        lemma_position_of_given(args, key);
    }
}

/// An option is seen exactly if it is given.
proof fn lemma_option_seen(args: Seq<Seq<char>>, key: Seq<char>)
    ensures
        option(args, key) matches Some((v, _)) ==> (v is Some <==> args.contains(key)),
        option(args, key) is None ==> args.contains(key),
{
    lemma_position(args, key);
    if args.contains(key) {
        lemma_position_of_given(args, key);
    }
}

/// The keys of the collector that are looked for before the sizes differ.
proof fn lemma_head_keys()
    ensures
        "--help"@ != "--dry-run"@,
        "--help"@ != "-d"@,
        "--help"@ != "--delete-old"@,
        "--help"@ != "--delete-older-than"@,
        "--help"@ != "--ensure-free"@,
        "--delete-older-than"@ != "--dry-run"@,
        "--delete-older-than"@ != "-d"@,
        "--delete-older-than"@ != "--delete-old"@,
        "--delete-older-than"@ != "--ensure-free"@,
        "-d"@ != "--dry-run"@,
        "-d"@ != "--delete-old"@,
        "-d"@ != "--ensure-free"@,
        "--delete-old"@ != "--dry-run"@,
        "--delete-old"@ != "--ensure-free"@,
        "--dry-run"@ != "--ensure-free"@,
        "--dry-run"@ != "--min-size"@,
{
    reveal_strlit("--help");
    reveal_strlit("--dry-run");
    reveal_strlit("-d");
    reveal_strlit("--delete-old");
    reveal_strlit("--delete-older-than");
    reveal_strlit("--ensure-free");
    reveal_strlit("--min-size");
    assert("--help"@.len() == 6 && "--dry-run"@.len() == 9 && "-d"@.len() == 2);
    assert("--delete-old"@.len() == 12 && "--delete-older-than"@.len() == 19);
    assert("--ensure-free"@.len() == 13 && "--min-size"@.len() == 10);
}

/// Asking for a dry run is never missed, wherever it stands, unless it stands
/// where the age of generations is to stand, and nothing else makes a dry run.
/// Old generations are deleted exactly if one of the three arguments for that is
/// given.
pub proof fn law_dry_run_is_never_missed(args: Seq<Seq<char>>, head: HeadView)
    requires
        head_of(args) == Ok::<Option<HeadView>, CliFault>(Some(head)),
    ensures
        args.contains("--dry-run"@) ==> head.dry_run || head.delete_older_than == Some(
            "--dry-run"@,
        ),
        head.dry_run ==> args.contains("--dry-run"@),
        head.delete_old <==> args.contains("-d"@) || args.contains("--delete-old"@)
            || args.contains("--delete-older-than"@),
        head.delete_older_than is Some <==> args.contains("--delete-older-than"@),
        args.contains("--ensure-free"@) ==> head.ensure_free is Some || head.delete_older_than
            == Some("--ensure-free"@),
        head.ensure_free is Some ==> args.contains("--ensure-free"@),
        !args.contains("--help"@),
{
    lemma_head_keys();
    lemma_flag_seen(args, "--help"@);
    let a0 = flag(args, "--help"@).1;
    assert(a0 == args);
    lemma_option_seen(a0, "--delete-older-than"@);
    let (older, a1) = option(a0, "--delete-older-than"@)->0;
    lemma_option_keeps(a0, "--delete-older-than"@);
    let (short, a2) = flag(a1, "-d"@);
    lemma_flag_seen(a1, "-d"@);
    lemma_flag_keeps(a1, "-d"@);
    lemma_flag_seen(a2, "--delete-old"@);
    lemma_flag_keeps(a2, "--delete-old"@);
    let a3 = if short {
        a2
    } else {
        flag(a2, "--delete-old"@).1
    };
    lemma_flag_seen(a3, "--dry-run"@);
    lemma_flag_keeps(a3, "--dry-run"@);
    let a4 = flag(a3, "--dry-run"@).1;
    lemma_option_seen(a4, "--ensure-free"@);
    if args.contains("--dry-run"@) {
        lemma_option_leaves(a0, "--delete-older-than"@, "--dry-run"@);
        if a1.contains("--dry-run"@) {
            lemma_flag_leaves(a1, "-d"@, "--dry-run"@);
            lemma_flag_leaves(a2, "--delete-old"@, "--dry-run"@);
        }
    }
    if args.contains("-d"@) {
        lemma_option_leaves(a0, "--delete-older-than"@, "-d"@);
    }
    if args.contains("--delete-old"@) {
        lemma_option_leaves(a0, "--delete-older-than"@, "--delete-old"@);
        if a1.contains("--delete-old"@) {
            lemma_flag_leaves(a1, "-d"@, "--delete-old"@);
        }
    }
    if args.contains("--ensure-free"@) {
        lemma_option_leaves(a0, "--delete-older-than"@, "--ensure-free"@);
        if a1.contains("--ensure-free"@) {
            lemma_flag_leaves(a1, "-d"@, "--ensure-free"@);
            lemma_flag_leaves(a2, "--delete-old"@, "--ensure-free"@);
            lemma_flag_leaves(a3, "--dry-run"@, "--ensure-free"@);
        }
    }
}

/// The optimiser makes a dry run exactly if it is asked to, works with at least
/// one job where the machine offers one, and uses the usual sizes and
/// directories where no others are given.
pub proof fn law_optimiser_does_as_told(
    args: Seq<Seq<char>>,
    default_jobs: usize,
    o: OptionsView,
)
    requires
        optimiser_of(args, default_jobs) == Ok::<Option<OptionsView>, CliFault>(Some(o)),
    ensures
        o.dry_run <==> args.contains("--dry-run"@),
        default_jobs >= 1 ==> o.jobs >= 1,
        !args.contains("--jobs"@) && !args.contains("-j"@) ==> o.jobs == default_jobs,
        !args.contains("--min-size"@) ==> o.min_size == 0,
        !args.contains("--store-dir"@) ==> o.store_dir == "/nix/store"@,
        !args.contains("--state-dir"@) ==> o.state_dir == "/nix/var/nix"@,
        !args.contains("--help"@),
{
    lemma_head_keys();
    lemma_flag_seen(args, "--help"@);
    let a0 = flag(args, "--help"@).1;
    assert(a0 == args);
    lemma_flag_seen(a0, "--dry-run"@);
    lemma_flag_keeps(a0, "--dry-run"@);
    let a1 = flag(a0, "--dry-run"@).1;
    lemma_option_seen(a1, "--min-size"@);
    lemma_option_keeps(a1, "--min-size"@);
    let (min, a2) = option(a1, "--min-size"@)->0;
    lemma_option_seen(a2, "--jobs"@);
    lemma_option_keeps(a2, "--jobs"@);
    let (long, a3) = option(a2, "--jobs"@)->0;
    lemma_option_seen(a3, "-j"@);
    lemma_option_keeps(a3, "-j"@);
    let (short, a4) = option(a3, "-j"@)->0;
    lemma_dirs_default(a4);
}

/// Without an argument for it, a directory is the usual one.
proof fn lemma_dirs_default(args: Seq<Seq<char>>)
    ensures
        dirs_of(args) matches Ok((store, state)) ==> {
            &&& !args.contains("--store-dir"@) ==> store == "/nix/store"@
            &&& !args.contains("--state-dir"@) ==> state == "/nix/var/nix"@
        },
{
    lemma_option_seen(args, "--store-dir"@);
    if option(args, "--store-dir"@) is Some {
        let (store, a1) = option(args, "--store-dir"@)->0;
        lemma_option_keeps(args, "--store-dir"@);
        lemma_option_seen(a1, "--state-dir"@);
    }
}

/// The keys of the collector that are looked for behind the sizes differ.
proof fn lemma_switch_keys()
    ensures
        "--max-freed"@ != "--no-vacuum"@,
        "--max-freed"@ != "--no-prune-devshell-roots"@,
        "--max-freed"@ != "--no-prune-auto-roots"@,
        "--max-freed"@ != "--keep-recent"@,
        "--keep-recent"@ != "--no-vacuum"@,
        "--keep-recent"@ != "--no-prune-devshell-roots"@,
        "--keep-recent"@ != "--no-prune-auto-roots"@,
        "--no-vacuum"@ != "--no-prune-devshell-roots"@,
        "--no-vacuum"@ != "--no-prune-auto-roots"@,
        "--chunk-size"@ != "--no-prune-devshell-roots"@,
        "--chunk-size"@ != "--no-prune-auto-roots"@,
        "--no-prune-devshell-roots"@ != "--no-prune-auto-roots"@,
        numbers::number("--keep-recent"@) is None,
        numbers::number("--no-vacuum"@) is None,
        numbers::number("--no-prune-devshell-roots"@) is None,
        numbers::number("--no-prune-auto-roots"@) is None,
{
    reveal_strlit("--max-freed");
    reveal_strlit("--no-vacuum");
    reveal_strlit("--no-prune-devshell-roots");
    reveal_strlit("--no-prune-auto-roots");
    reveal_strlit("--keep-recent");
    reveal_strlit("--chunk-size");
    assert("--max-freed"@[2] == 'm' && "--no-vacuum"@[2] == 'n');
    assert("--max-freed"@.len() == 11 && "--no-vacuum"@.len() == 11);
    assert("--no-prune-devshell-roots"@.len() == 25 && "--no-prune-auto-roots"@.len() == 21);
    assert("--keep-recent"@.len() == 13 && "--chunk-size"@.len() == 12);
    numbers::law_only_digits_are_numbers("--keep-recent"@, 0);
    numbers::law_only_digits_are_numbers("--no-vacuum"@, 0);
    numbers::law_only_digits_are_numbers("--no-prune-devshell-roots"@, 0);
    numbers::law_only_digits_are_numbers("--no-prune-auto-roots"@, 0);
}

/// The switches of the collector count wherever they stand, unless they stand
/// where an age is to stand, and what is not given keeps its default: vacuum,
/// prune, keep nothing for its age, free without limit, and the usual
/// directories.
pub proof fn law_switches_do_as_told(head: HeadView, ensure_free: Option<u64>, a: ArgsView)
    requires
        tail_of(head, ensure_free) == Ok::<ArgsView, CliFault>(a),
    ensures
        a.delete_old == head.delete_old,
        a.delete_older_than == head.delete_older_than,
        a.dry_run == head.dry_run,
        a.ensure_free == ensure_free,
        a.max_freed is Some <==> head.rest.contains("--max-freed"@),
        a.keep_recent is Some ==> head.rest.contains("--keep-recent"@),
        head.rest.contains("--keep-recent"@) ==> a.keep_recent is Some,
        a.no_vacuum ==> head.rest.contains("--no-vacuum"@),
        head.rest.contains("--no-vacuum"@) ==> a.no_vacuum || a.keep_recent == Some(
            "--no-vacuum"@,
        ),
        !a.prune_devshell ==> head.rest.contains("--no-prune-devshell-roots"@),
        head.rest.contains("--no-prune-devshell-roots"@) ==> !a.prune_devshell || a.keep_recent
            == Some("--no-prune-devshell-roots"@),
        !a.prune_auto ==> head.rest.contains("--no-prune-auto-roots"@),
        head.rest.contains("--no-prune-auto-roots"@) ==> !a.prune_auto || a.keep_recent == Some(
            "--no-prune-auto-roots"@,
        ),
        a.chunk_size is Some ==> head.rest.contains("--chunk-size"@),
        a.keep_outputs is Some ==> head.rest.contains("--keep-outputs"@),
        a.keep_derivations is Some ==> head.rest.contains("--keep-derivations"@),
        !head.rest.contains("--store-dir"@) ==> a.store_dir == "/nix/store"@,
        !head.rest.contains("--state-dir"@) ==> a.state_dir == "/nix/var/nix"@,
{
    lemma_switch_keys();
    let args = head.rest;
    lemma_option_seen(args, "--max-freed"@);
    lemma_option_keeps(args, "--max-freed"@);
    let (max, a0) = option(args, "--max-freed"@)->0;
    lemma_option_seen(a0, "--keep-recent"@);
    lemma_option_keeps(a0, "--keep-recent"@);
    let (recent, a1) = option(a0, "--keep-recent"@)->0;
    lemma_flag_seen(a1, "--no-vacuum"@);
    lemma_flag_keeps(a1, "--no-vacuum"@);
    let a2 = flag(a1, "--no-vacuum"@).1;
    lemma_option_seen(a2, "--chunk-size"@);
    lemma_option_keeps(a2, "--chunk-size"@);
    let (chunk, a3) = option(a2, "--chunk-size"@)->0;
    lemma_flag_seen(a3, "--no-prune-devshell-roots"@);
    lemma_flag_keeps(a3, "--no-prune-devshell-roots"@);
    let a4 = flag(a3, "--no-prune-devshell-roots"@).1;
    lemma_flag_seen(a4, "--no-prune-auto-roots"@);
    lemma_flag_keeps(a4, "--no-prune-auto-roots"@);
    let a5 = flag(a4, "--no-prune-auto-roots"@).1;
    lemma_option_seen(a5, "--keep-outputs"@);
    lemma_option_keeps(a5, "--keep-outputs"@);
    let (outputs, a6) = option(a5, "--keep-outputs"@)->0;
    lemma_option_seen(a6, "--keep-derivations"@);
    lemma_option_keeps(a6, "--keep-derivations"@);
    let (derivations, a7) = option(a6, "--keep-derivations"@)->0;
    lemma_dirs_default(a7);
    if args.contains("--keep-recent"@) {
        lemma_option_leaves(args, "--max-freed"@, "--keep-recent"@);
    }
    if args.contains("--no-vacuum"@) {
        lemma_option_leaves(args, "--max-freed"@, "--no-vacuum"@);
        lemma_option_leaves(a0, "--keep-recent"@, "--no-vacuum"@);
    }
    if args.contains("--no-prune-devshell-roots"@) {
        let x = "--no-prune-devshell-roots"@;
        lemma_option_leaves(args, "--max-freed"@, x);
        lemma_option_leaves(a0, "--keep-recent"@, x);
        if a1.contains(x) {
            lemma_flag_leaves(a1, "--no-vacuum"@, x);
            lemma_option_leaves(a2, "--chunk-size"@, x);
        }
    }
    if args.contains("--no-prune-auto-roots"@) {
        let x = "--no-prune-auto-roots"@;
        lemma_option_leaves(args, "--max-freed"@, x);
        lemma_option_leaves(a0, "--keep-recent"@, x);
        if a1.contains(x) {
            lemma_flag_leaves(a1, "--no-vacuum"@, x);
            lemma_option_leaves(a2, "--chunk-size"@, x);
            lemma_flag_leaves(a3, "--no-prune-devshell-roots"@, x);
        }
    }
}

/// An option that is a number or a switch has the value that the argument behind
/// it stands for, however large, and is rejected together with that argument
/// where it stands for none.
pub proof fn law_options_have_the_value_behind_them(
    before: Seq<Seq<char>>,
    key: Seq<char>,
    v: Seq<char>,
    after: Seq<Seq<char>>,
    n: u64,
    k: usize,
    b: bool,
)
    requires
        !before.contains(key),
    ensures
        ({
            let args = before + seq![key, v] + after;
            &&& numbers::number(v) == Some(n) ==> bytes_option(args, key) == Ok::<_, CliFault>(
                (Some(n), before + after),
            )
            &&& numbers::number(v) == Some(k as u64) ==> count_option(args, key) == Ok::<
                _,
                CliFault,
            >((Some(k), before + after))
            &&& v == (if b {
                "true"@
            } else {
                "false"@
            }) ==> bool_option(args, key) == Ok::<_, CliFault>((Some(b), before + after))
            &&& numbers::number(v) is None ==> bytes_option(args, key) is Err && count_option(
                args,
                key,
            ) is Err
            &&& v != "true"@ && v != "false"@ ==> bool_option(args, key) is Err
            &&& bytes_option(before, key) == Ok::<_, CliFault>((None::<u64>, before))
            &&& count_option(before, key) == Ok::<_, CliFault>((None::<usize>, before))
            &&& bool_option(before, key) == Ok::<_, CliFault>((None::<bool>, before))
        }),
{
    law_arguments_are_found(before, key, v, after);
    law_values_are_read_literally(v, b, k);
}

/// What a rejected command line is answered names what was wrong with it: the
/// option without a value, the value that is none, or the argument that is not
/// understood and the one that was meant.
pub proof fn law_answers_name_the_culprit(e: CliError)
    ensures
        match e {
            CliError::MissingValue(key) => text::has_text(answer(e), key@),
            CliError::InvalidValue { value, cause, .. } => text::has_text(answer(e), value@)
                && text::ends_with(answer(e), cause@),
            CliError::Unexpected { arg, suggestion: Some(s), .. } => text::has_text(
                answer(e),
                arg@,
            ) && text::has_text(answer(e), s@),
            CliError::Unexpected { suggestion: None, rest, .. } => text::has_text(
                answer(e),
                debug_list(text::views(rest@)),
            ),
            CliError::NoJobs => true,
        },
{
    match e {
        CliError::MissingValue(key) => {
            lemma_has_text("the '"@, key@, "' option doesn't have an associated value"@);
        },
        CliError::InvalidValue { value, cause, .. } => {
            let head = "failed to parse '"@;
            assert(answer(e) =~= head + value@ + ("': "@ + cause@));
            lemma_has_text(head, value@, "': "@ + cause@);
            text::lemma_suffix_joins(answer(e), cause@, head + value@ + "': "@);
        },
        CliError::Unexpected { arg, suggestion, rest } => match suggestion {
            Some(s) => {
                let head = "unexpected argument '"@;
                let mid = "'; did you mean '"@;
                assert(answer(e) =~= head + arg@ + (mid + s@ + "'?"@));
                lemma_has_text(head, arg@, mid + s@ + "'?"@);
                lemma_has_text(head + arg@ + mid, s@, "'?"@);
            },
            None => {
                lemma_has_text(
                    "unexpected arguments: "@,
                    debug_list(text::views(rest@)),
                    " (see --help)"@,
                );
            },
        },
        CliError::NoJobs => {},
    }
}

proof fn lemma_has_text(before: Seq<char>, needle: Seq<char>, after: Seq<char>)
    ensures
        text::has_text(before + needle + after, needle),
{
    let s = before + needle + after;
    let at = before.len() as int;
    assert(s.subrange(at, at + needle.len()) =~= needle);
    assert(text::occurs_at(s, needle, at));
}

} // verus!
