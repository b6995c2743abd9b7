//! Store paths as the store's own parser sees them.
use crate::db::InvalidStorePath;
use crate::db::NixDb;
use crate::text;
use vstd::prelude::*;

verus! {

/// A digit of the base-32 notation: no `e`, `o`, `t`, `u`.
pub open spec fn is_base32(c: char) -> bool {
    ('0' <= c <= '9') || ('a' <= c <= 'z' && c != 'e' && c != 'o' && c != 't' && c != 'u')
}

/// A character allowed in the name of a store path.
pub open spec fn is_name_char(c: char) -> bool {
    ('0' <= c <= '9') || ('a' <= c <= 'z') || ('A' <= c <= 'Z') || c == '+' || c == '-' || c == '_'
        || c == '?' || c == '=' || c == '.'
}

/// A store path without its directory: 32 base-32 digits, a dash, and a name of
/// 1 to 211 characters.
pub open spec fn is_base_path(s: Seq<char>) -> bool {
    &&& 34 <= s.len() <= 244
    &&& forall|i: int| 0 <= i < 32 ==> is_base32(#[trigger] s[i])
    &&& s[32] == '-'
    &&& forall|i: int| 33 <= i < s.len() ==> is_name_char(#[trigger] s[i])
}

/// What stands behind the store directory and a slash in an absolute path.
pub open spec fn below_store(store_dir: Seq<char>, path: Seq<char>) -> Option<Seq<char>> {
    if path.len() > 0 && path[0] == '/' {
        text::after_prefix(path, store_dir.push('/'))
    } else {
        None
    }
}

/// The base path of `path`, if it is a store path in `store_dir`.
pub open spec fn parsed(store_dir: Seq<char>, path: Seq<char>) -> Option<Seq<char>> {
    match below_store(store_dir, path) {
        Some(base) => if is_base_path(base) {
            Some(base)
        } else {
            None
        },
        None => None,
    }
}

/// `harmonia_store_core::store_path::StoreDir::new` takes every directory that
/// is text and keeps it as it is.
#[verifier::external_body]
fn store_dir_text(dir: &str) -> (r: Option<String>)
    ensures
        r is Some,
        r->0@ == dir@,
{
    harmonia_store_core::store_path::StoreDir::new(dir).ok().map(|d| d.to_str().to_owned())
}

/// What the parser says of `path`, which is no store path in `dir`.
pub uninterp spec fn parse_fault(dir: Seq<char>, path: Seq<char>) -> Seq<char>;

/// `harmonia_store_core::store_path::StoreDir::parse` accepts an absolute path
/// that is the store directory, a slash and a base path, and shows the base
/// path. What it says of any other path depends on that path and the directory.
#[verifier::external_body]
fn parse_store_path(dir: &str, path: &str) -> (r: Result<String, String>)
    ensures
        match r {
            Ok(base) => parsed(dir@, path@) == Some(base@),
            Err(e) => parsed(dir@, path@) is None && e@ == parse_fault(dir@, path@),
        },
{
    let store = match harmonia_store_core::store_path::StoreDir::new(dir) {
        Ok(store) => store,
        Err(e) => return Err(e.to_string()),
    };
    match store.parse::<harmonia_store_core::store_path::StorePath>(path) {
        Ok(p) => Ok(p.to_string()),
        Err(e) => Err(e.to_string()),
    }
}

/// `harmonia_store_core::store_path::StoreDir::display` shows a store path as the
/// store directory, a slash and the base path that it was made from.
#[verifier::external_body]
fn show_store_path(dir: &str, base: &str) -> (r: Option<String>)
    requires
        is_base_path(base@),
    ensures
        r is Some,
        r->0@ == dir@.push('/') + base@,
{
    let store = harmonia_store_core::store_path::StoreDir::new(dir).ok()?;
    let path = harmonia_store_core::store_path::StorePath::from_base_path(base).ok()?;
    Some(store.display(&path).to_string())
}

/// The index of the first path that is not a store path in `dir`, or the number
/// of paths.
pub open spec fn first_invalid(dir: Seq<char>, paths: Seq<Seq<char>>) -> int
    decreases paths.len(),
{
    if paths.len() == 0 || parsed(dir, paths[0]) is None {
        0
    } else {
        1 + first_invalid(dir, paths.drop_first())
    }
}

proof fn lemma_first_invalid(dir: Seq<char>, paths: Seq<Seq<char>>, k: int)
    requires
        0 <= k <= paths.len(),
        forall|i: int| 0 <= i < k ==> parsed(dir, #[trigger] paths[i]) is Some,
        k < paths.len() ==> parsed(dir, paths[k]) is None,
    ensures
        first_invalid(dir, paths) == k,
    decreases k,
{
    if k > 0 {
        assert(parsed(dir, paths[0]) is Some);
        assert forall|i: int| 0 <= i < k - 1 implies parsed(
            dir,
            #[trigger] paths.drop_first()[i],
        ) is Some by {
            assert(paths.drop_first()[i] == paths[i + 1]);
        }
        lemma_first_invalid(dir, paths.drop_first(), k - 1);
    }
}

impl NixDb {
    /// The store directory as the parser of store paths keeps it. Fails if it
    /// is not UTF-8.
    pub fn store_dir_typed(&self) -> (r: Option<String>)
        ensures
            match r {
                Some(dir) => text::decoded(self.store_dir@) == Some(dir@),
                None => text::decoded(self.store_dir@) is None,
            },
    {
        match text::decode_text(&self.store_dir) {
            Some(dir) => store_dir_text(dir.as_str()),
            None => None,
        }
    }

    /// The base paths of the valid paths of the database. A row that is not a
    /// store path is an error rather than dropped; the first one counts.
    pub fn valid_store_paths(&self, rows: &[String]) -> (r: Result<Vec<String>, InvalidStorePath>)
        requires
            text::decoded(self.store_dir@) is Some,
        ensures
            ({
                let dir = text::decoded(self.store_dir@)->0;
                let paths = text::views(rows@);
                match r {
                    Ok(bases) => {
                        &&& first_invalid(dir, paths) == paths.len()
                        &&& bases@.len() == paths.len()
                        &&& forall|i: int|
                            0 <= i < paths.len() ==> parsed(dir, #[trigger] paths[i]) == Some(
                                bases@[i]@,
                            )
                    },
                    Err(e) => {
                        &&& first_invalid(dir, paths) < paths.len()
                        &&& e.path@ == paths[first_invalid(dir, paths)]
                        &&& e.reason@ == parse_fault(dir, e.path@)
                    },
                }
            }),
    {
        let dir = match self.store_dir_typed() {
            Some(dir) => dir,
            None => String::new(),
        };
        let ghost paths = text::views(rows@);
        let mut bases: Vec<String> = Vec::new();
        let mut i: usize = 0;
        while i < rows.len()
            invariant
                paths == text::views(rows@),
                text::decoded(self.store_dir@) == Some(dir@),
                i <= rows@.len(),
                bases@.len() == i,
                forall|j: int|
                    0 <= j < i ==> parsed(dir@, #[trigger] paths[j]) == Some(bases@[j]@),
            decreases rows@.len() - i,
        {
            assert(paths[i as int] == rows@[i as int]@);
            match parse_store_path(dir.as_str(), rows[i].as_str()) {
                Ok(base) => {
                    let ghost bases0 = bases@;
                    bases.push(base);
                    proof {
                        assert forall|j: int| 0 <= j < i + 1 implies parsed(
                            dir@,
                            #[trigger] paths[j],
                        ) == Some(bases@[j]@) by {
                            if j < i {
                                assert(bases@[j] == bases0[j]);
                            }
                        }
                    }
                },
                Err(reason) => {
                    proof {
                        lemma_first_invalid(dir@, paths, i as int);
                    }
                    return Err(InvalidStorePath { path: rows[i].clone(), reason });
                },
            }
            i += 1;
        }
        proof {
            lemma_first_invalid(dir@, paths, i as int);
        }
        Ok(bases)
    }

    /// The absolute path of a store path, given by its base path. Fails if the
    /// store directory is not UTF-8.
    pub fn absolute_path(&self, base: &str) -> (r: Option<String>)
        requires
            is_base_path(base@),
        ensures
            match r {
                Some(path) => text::decoded(self.store_dir@) is Some && path@ == text::decoded(
                    self.store_dir@,
                )->0.push('/') + base@,
                None => text::decoded(self.store_dir@) is None,
            },
    {
        match self.store_dir_typed() {
            Some(dir) => show_store_path(dir.as_str(), base),
            None => None,
        }
    }
}

/// In an absolute store directory, what a base path is shown as is parsed as
/// that base path, and nothing else is.
pub proof fn law_shown_paths_parse(dir: Seq<char>, base: Seq<char>, path: Seq<char>)
    requires
        dir.len() > 0,
        dir[0] == '/',
        is_base_path(base),
    ensures
        parsed(dir, path) == Some(base) <==> path == dir.push('/') + base,
{
    let prefix = dir.push('/');
    if path == prefix + base {
        assert(path.take(prefix.len() as int) =~= prefix);
        assert(path.skip(prefix.len() as int) =~= base);
        assert(path.subrange(prefix.len() as int, path.len() as int) =~= base);
        assert(path.subrange(0, prefix.len() as int) =~= prefix);
    }
    if parsed(dir, path) == Some(base) {
        assert(path =~= prefix + base);
    }
}

/// 32 digits in base 32, which are the digits and the small letters without
/// `e`, `o`, `t` and `u`, a dash, and 1 to 211 letters, digits and other
/// characters of a name are a base path, and nothing else is.
pub proof fn law_base_paths_are_recognised(hash: Seq<char>, name: Seq<char>, base: Seq<char>)
    ensures
        hash.len() == 32 && (forall|i: int|
            0 <= i < 32 ==> ('0' <= #[trigger] hash[i] <= '9' || 'a' <= hash[i] <= 'z') && !seq![
                'e',
                'o',
                't',
                'u',
            ].contains(hash[i])) && 1 <= name.len() <= 211 && (forall|i: int|
            0 <= i < name.len() ==> '0' <= #[trigger] name[i] <= '9' || 'a' <= name[i] <= 'z'
                || 'A' <= name[i] <= 'Z' || seq!['+', '-', '.', '_', '?', '='].contains(name[i]))
            ==> is_base_path(hash + seq!['-'] + name),
        is_base_path(base) ==> 34 <= base.len() <= 244 && base[32] == '-' && (forall|i: int|
            0 <= i < 32 ==> !seq!['e', 'o', 't', 'u'].contains(#[trigger] base[i])),
{
    let odd = seq!['e', 'o', 't', 'u'];
    let others = seq!['+', '-', '.', '_', '?', '='];
    assert(odd[0] == 'e' && odd[1] == 'o' && odd[2] == 't' && odd[3] == 'u');
    assert(others[0] == '+' && others[1] == '-' && others[2] == '.');
    assert(others[3] == '_' && others[4] == '?' && others[5] == '=');
    let whole = hash + seq!['-'] + name;
    if hash.len() == 32 && (forall|i: int|
        0 <= i < 32 ==> ('0' <= #[trigger] hash[i] <= '9' || 'a' <= hash[i] <= 'z') && !seq![
            'e',
            'o',
            't',
            'u',
        ].contains(hash[i])) && 1 <= name.len() <= 211 && (forall|i: int|
        0 <= i < name.len() ==> '0' <= #[trigger] name[i] <= '9' || 'a' <= name[i] <= 'z' || 'A'
            <= name[i] <= 'Z' || seq!['+', '-', '.', '_', '?', '='].contains(name[i])) {
        assert forall|i: int| 0 <= i < 32 implies is_base32(#[trigger] whole[i]) by {
            assert(whole[i] == hash[i]);
        }
        assert forall|i: int| 33 <= i < whole.len() implies is_name_char(#[trigger] whole[i]) by {
            assert(whole[i] == name[i - 33]);
        }
    }
    if is_base_path(base) {
        assert forall|i: int| 0 <= i < 32 implies !odd.contains(#[trigger] base[i]) by {
            assert(is_base32(base[i]));
        }
    }
}

/// The first path that is no store path is the one that is reported: all before
/// it are, and if all are, none is.
pub proof fn law_first_invalid_path_counts(dir: Seq<char>, paths: Seq<Seq<char>>, i: int)
    ensures
        0 <= first_invalid(dir, paths) <= paths.len(),
        0 <= i < first_invalid(dir, paths) ==> parsed(dir, paths[i]) is Some,
        first_invalid(dir, paths) < paths.len() ==> parsed(
            dir,
            paths[first_invalid(dir, paths)],
        ) is None,
    decreases paths.len(),
{
    if paths.len() > 0 && parsed(dir, paths[0]) is Some {
        let rest = paths.drop_first();
        law_first_invalid_path_counts(dir, rest, i - 1);
        if 0 < i < first_invalid(dir, paths) {
            assert(paths[i] == rest[i - 1]);
        }
    }
}

} // verus!
