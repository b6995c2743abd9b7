//! File paths as bytes, taken apart at their slashes.
use crate::text;
use vstd::prelude::*;

verus! {

/// The parts of `p` between slashes.
pub open spec fn pieces(p: Seq<u8>) -> Seq<Seq<u8>>
    decreases p.len(),
{
    if p.len() == 0 {
        seq![Seq::empty()]
    } else {
        let r = pieces(p.drop_last());
        if p.last() == 47u8 {
            r.push(Seq::empty())
        } else {
            r.update(r.len() - 1, r.last().push(p.last()))
        }
    }
}

/// Whether the part at position `i` is a component: empty parts and dots do not
/// count, but for a dot at the very beginning.
pub open spec fn is_component(part: Seq<u8>, i: int) -> bool {
    part.len() > 0 && (part != seq![46u8] || i == 0)
}

/// The components among the first `n` parts.
pub open spec fn components_of(parts: Seq<Seq<u8>>, n: int) -> Seq<Seq<u8>>
    decreases n,
{
    if n <= 0 {
        Seq::empty()
    } else if is_component(parts[n - 1], n - 1) {
        components_of(parts, n - 1).push(parts[n - 1])
    } else {
        components_of(parts, n - 1)
    }
}

/// The components of the path `p`, without the root.
pub open spec fn components(p: Seq<u8>) -> Seq<Seq<u8>> {
    components_of(pieces(p), pieces(p).len() as int)
}

/// The path begins at the root.
pub open spec fn is_absolute(p: Seq<u8>) -> bool {
    p.len() > 0 && p[0] == 47u8
}

/// The two paths have the same components.
pub open spec fn same_path(p: Seq<u8>, q: Seq<u8>) -> bool {
    is_absolute(p) == is_absolute(q) && components(p) == components(q)
}

/// The byte sequences of `v`.
pub open spec fn raw_views(v: Seq<Vec<u8>>) -> Seq<Seq<u8>> {
    v.map_values(|b: Vec<u8>| b@)
}

/// True when the slices hold the same bytes.
pub fn same_bytes(a: &[u8], b: &[u8]) -> (r: bool)
    ensures
        r == (a@ == b@),
{
    if a.len() != b.len() {
        return false;
    }
    let mut i: usize = 0;
    while i < a.len()
        invariant
            i <= a@.len(),
            a@.len() == b@.len(),
            forall|j: int| 0 <= j < i ==> a@[j] == b@[j],
        decreases a@.len() - i,
    {
        if a[i] != b[i] {
            return false;
        }
        i += 1;
    }
    assert(a@ =~= b@);
    true
}

/// The parts of `p` between slashes.
fn split_slashes(p: &[u8]) -> (r: Vec<Vec<u8>>)
    ensures
        raw_views(r@) == pieces(p@),
{
    let mut done: Vec<Vec<u8>> = Vec::new();
    let mut part: Vec<u8> = Vec::new();
    let mut i: usize = 0;
    proof {
        assert(p@.take(0) =~= Seq::empty());
        assert(raw_views(done@).push(part@) =~= pieces(p@.take(0)));
    }
    while i < p.len()
        invariant
            i <= p@.len(),
            raw_views(done@).push(part@) == pieces(p@.take(i as int)),
        decreases p@.len() - i,
    {
        let ghost done0 = done@;
        let ghost part0 = part@;
        let ghost now = p@.take(i + 1);
        assert(now.drop_last() =~= p@.take(i as int));
        if p[i] == 47 {
            done.push(part);
            part = Vec::new();
            proof {
                assert(raw_views(done@) =~= raw_views(done0).push(part0));
                assert(raw_views(done@).push(part@) =~= pieces(now));
            }
        } else {
            part.push(p[i]);
            assert(raw_views(done@).push(part@) =~= pieces(now));
        }
        i += 1;
    }
    assert(p@.take(i as int) =~= p@);
    let ghost done0 = done@;
    let ghost part0 = part@;
    done.push(part);
    assert(raw_views(done@) =~= raw_views(done0).push(part0));
    done
}

/// The components of the path `p`, without the root.
pub fn path_components(p: &[u8]) -> (r: Vec<Vec<u8>>)
    ensures
        raw_views(r@) == components(p@),
{
    let parts = split_slashes(p);
    let ghost all = raw_views(parts@);
    let dot: Vec<u8> = vec![46];
    assert(dot@ =~= seq![46u8]);
    let mut r: Vec<Vec<u8>> = Vec::new();
    let mut i: usize = 0;
    assert(raw_views(r@) =~= components_of(all, 0));
    while i < parts.len()
        invariant
            all == raw_views(parts@),
            dot@ == seq![46u8],
            i <= parts@.len(),
            raw_views(r@) == components_of(all, i as int),
        decreases parts@.len() - i,
    {
        let ghost r0 = r@;
        assert(all[i as int] == parts@[i as int]@);
        if parts[i].len() > 0 && (i == 0 || !same_bytes(&parts[i], &dot)) {
            r.push(text::copy_bytes(&parts[i]));
            assert(raw_views(r@) =~= raw_views(r0).push(all[i as int]));
        }
        i += 1;
    }
    r
}

/// True when the path begins at the root.
pub fn path_is_absolute(p: &[u8]) -> (r: bool)
    ensures
        r == is_absolute(p@),
{
    p.len() > 0 && p[0] == 47
}

/// True when the two lists hold the same byte sequences.
fn same_parts(a: &Vec<Vec<u8>>, b: &Vec<Vec<u8>>) -> (r: bool)
    ensures
        r == (raw_views(a@) == raw_views(b@)),
{
    if a.len() != b.len() {
        assert(raw_views(a@).len() != raw_views(b@).len());
        return false;
    }
    let mut i: usize = 0;
    while i < a.len()
        invariant
            i <= a@.len(),
            a@.len() == b@.len(),
            forall|j: int| 0 <= j < i ==> (#[trigger] a@[j])@ == b@[j]@,
        decreases a@.len() - i,
    {
        if !same_bytes(&a[i], &b[i]) {
            assert(raw_views(a@)[i as int] != raw_views(b@)[i as int]);
            return false;
        }
        i += 1;
    }
    assert(raw_views(a@) =~= raw_views(b@));
    true
}

/// True when the two paths have the same components.
pub fn paths_equal(p: &[u8], q: &[u8]) -> (r: bool)
    ensures
        r == same_path(p@, q@),
{
    let a = path_components(p);
    let b = path_components(q);
    path_is_absolute(p) == path_is_absolute(q) && same_parts(&a, &b)
}

/// The path made of `parts`, from the root or not.
pub open spec fn rendered(absolute: bool, parts: Seq<Seq<u8>>) -> Seq<u8>
    decreases parts.len(),
{
    if parts.len() == 0 {
        if absolute {
            seq![47u8]
        } else {
            Seq::empty()
        }
    } else if parts.len() == 1 {
        rendered(absolute, Seq::empty()) + parts[0]
    } else {
        rendered(absolute, parts.drop_last()).push(47u8) + parts.last()
    }
}

/// The path made of the first `n` of `parts`, from the root or not.
pub fn render(absolute: bool, parts: &[Vec<u8>], n: usize) -> (r: Vec<u8>)
    requires
        n <= parts@.len(),
    ensures
        r@ == rendered(absolute, raw_views(parts@).take(n as int)),
{
    let ghost all = raw_views(parts@);
    let mut r: Vec<u8> = Vec::new();
    if absolute {
        r.push(47);
    }
    let mut i: usize = 0;
    proof {
        assert(all.take(0) =~= Seq::empty());
        assert(r@ =~= rendered(absolute, all.take(0)));
    }
    while i < n
        invariant
            all == raw_views(parts@),
            n <= parts@.len(),
            i <= n,
            r@ == rendered(absolute, all.take(i as int)),
        decreases n - i,
    {
        let ghost now = all.take(i + 1);
        assert(now.drop_last() =~= all.take(i as int));
        if i > 0 {
            r.push(47);
        }
        let ghost before = r@;
        r.extend_from_slice(&parts[i]);
        proof {
            assert(r@ =~= before + all[i as int]);
            if i == 0 {
                assert(all.take(0) =~= Seq::empty());
            }
        }
        i += 1;
    }
    r
}

/// The name of a file ends in `.rc` behind at least one other character.
pub open spec fn has_rc_extension(name: Seq<u8>) -> bool {
    name.len() > 3 && name.subrange(name.len() - 3, name.len() as int) == seq![46u8, 114u8, 99u8]
}

/// True when the file name has the extension `rc`.
pub fn is_rc_file(name: &[u8]) -> (r: bool)
    ensures
        r == has_rc_extension(name@),
{
    let n: usize = name.len();
    let r = n > 3 && name[n - 3] == 46 && name[n - 2] == 114 && name[n - 1] == 99;
    proof {
        if n > 3 {
            let end = name@.subrange(n - 3, n as int);
            assert(end[0] == name@[n - 3] && end[1] == name@[n - 2] && end[2] == name@[n - 1]);
            if r {
                assert(end =~= seq![46u8, 114u8, 99u8]);
            } else {
                assert(end != seq![46u8, 114u8, 99u8]) by {
                    let want = seq![46u8, 114u8, 99u8];
                    assert(want[0] == 46u8 && want[1] == 114u8 && want[2] == 99u8);
                }
            }
        }
    }
    r
}

/// The last component of a path, unless that is a dot or two.
pub open spec fn file_name_of(p: Seq<u8>) -> Option<Seq<u8>> {
    let parts = components(p);
    if parts.len() == 0 || parts.last() == seq![46u8] || parts.last() == seq![46u8, 46u8] {
        None
    } else {
        Some(parts.last())
    }
}

/// The last component of a path, unless that is a dot or two.
pub fn file_name(p: &[u8]) -> (r: Option<Vec<u8>>)
    ensures
        match r {
            Some(name) => file_name_of(p@) == Some(name@),
            None => file_name_of(p@) is None,
        },
{
    let mut parts = path_components(p);
    let ghost all = raw_views(parts@);
    let dot: Vec<u8> = vec![46];
    let dots: Vec<u8> = vec![46, 46];
    assert(dot@ =~= seq![46u8]);
    assert(dots@ =~= seq![46u8, 46u8]);
    match parts.pop() {
        None => None,
        Some(last) => {
            assert(all.last() == last@);
            if same_bytes(&last, &dot) || same_bytes(&last, &dots) {
                None
            } else {
                Some(last)
            }
        },
    }
}

proof fn lemma_pieces(p: Seq<u8>)
    ensures
        pieces(p).len() > 0,
    decreases p.len(),
{
    if p.len() > 0 {
        lemma_pieces(p.drop_last());
    }
}

proof fn lemma_pieces_append(p: Seq<u8>, name: Seq<u8>)
    requires
        forall|i: int| 0 <= i < name.len() ==> #[trigger] name[i] != 47u8,
    ensures
        pieces(p.push(47u8) + name) == pieces(p).push(name),
    decreases name.len(),
{
    let whole = p.push(47u8) + name;
    if name.len() == 0 {
        assert(whole =~= p.push(47u8));
        assert(whole.drop_last() =~= p);
        assert(name =~= Seq::empty());
    } else {
        let init = name.drop_last();
        assert forall|i: int| 0 <= i < init.len() implies #[trigger] init[i] != 47u8 by {
            assert(init[i] == name[i]);
        }
        lemma_pieces_append(p, init);
        assert(whole.drop_last() =~= p.push(47u8) + init);
        assert(whole.last() == name[name.len() - 1]);
        assert(init.push(name.last()) =~= name);
        assert(pieces(whole) =~= pieces(p).push(name));
    }
}

proof fn lemma_one_piece(name: Seq<u8>)
    requires
        forall|i: int| 0 <= i < name.len() ==> #[trigger] name[i] != 47u8,
    ensures
        pieces(name) == seq![name],
    decreases name.len(),
{
    if name.len() > 0 {
        let init = name.drop_last();
        assert forall|i: int| 0 <= i < init.len() implies #[trigger] init[i] != 47u8 by {
            assert(init[i] == name[i]);
        }
        lemma_one_piece(init);
        assert(name[name.len() - 1] == name.last());
        assert(init.push(name.last()) =~= name);
        assert(pieces(name) =~= seq![name]);
    } else {
        assert(name =~= Seq::empty());
        assert(pieces(name) =~= seq![name]);
    }
}

proof fn lemma_components_agree(a: Seq<Seq<u8>>, b: Seq<Seq<u8>>, n: int)
    requires
        0 <= n <= a.len(),
        n <= b.len(),
        forall|i: int| 0 <= i < n ==> a[i] == b[i],
    ensures
        components_of(a, n) == components_of(b, n),
    decreases n,
{
    if n > 0 {
        lemma_components_agree(a, b, n - 1);
    }
}

/// A name behind a path and a slash is one more component. Further slashes and
/// dots between slashes add none.
pub proof fn law_names_are_components(p: Seq<u8>, name: Seq<u8>)
    requires
        forall|i: int| 0 <= i < name.len() ==> #[trigger] name[i] != 47u8,
    ensures
        components(p + seq![47u8] + name) == if name.len() == 0 || name == seq![46u8] {
            components(p)
        } else {
            components(p).push(name)
        },
        components(name) == if name.len() == 0 {
            Seq::empty()
        } else {
            seq![name]
        },
        is_absolute(seq![47u8] + p),
        !is_absolute(name),
        p.len() > 0 ==> is_absolute(p + seq![47u8] + name) == is_absolute(p),
{
    let whole = p + seq![47u8] + name;
    assert(whole =~= p.push(47u8) + name);
    lemma_pieces_append(p, name);
    lemma_pieces(p);
    let n = pieces(p).len() as int;
    lemma_components_agree(pieces(whole), pieces(p), n);
    lemma_one_piece(name);
    let one = seq![name];
    assert(components_of(one, 0) =~= Seq::empty());
    assert(components_of(one, 1) =~= if name.len() == 0 {
        Seq::empty()
    } else {
        seq![name]
    });
    if name.len() > 0 {
        assert(name[0] != 47u8);
    }
}

/// The path made of names is taken apart into the same names, so two paths with
/// the same names are the same path.
pub proof fn law_rendered_paths_come_apart(absolute: bool, parts: Seq<Seq<u8>>)
    requires
        forall|k: int|
            0 <= k < parts.len() ==> (#[trigger] parts[k]).len() > 0 && parts[k] != seq![46u8],
        forall|k: int, i: int|
            0 <= k < parts.len() && 0 <= i < parts[k].len() ==> #[trigger] parts[k][i] != 47u8,
    ensures
        components(rendered(absolute, parts)) == parts,
        is_absolute(rendered(absolute, parts)) == absolute,
    decreases parts.len(),
{
    if parts.len() == 0 {
        let root = seq![47u8];
        let none: Seq<u8> = Seq::empty();
        law_names_are_components(none, none);
        assert(none + root + none =~= root);
        assert(components(root) =~= parts);
    } else if parts.len() == 1 {
        reveal_with_fuel(rendered, 2);
        let name = parts[0];
        assert forall|i: int| 0 <= i < name.len() implies #[trigger] name[i] != 47u8 by {
            assert(parts[0][i] != 47u8);
        }
        let none: Seq<u8> = Seq::empty();
        law_names_are_components(none, name);
        if absolute {
            assert(rendered(absolute, parts) =~= none + seq![47u8] + name);
            assert(components(none) =~= Seq::empty()) by {
                law_names_are_components(none, none);
            }
        } else {
            assert(rendered(absolute, parts) =~= name);
        }
        assert(seq![name] =~= parts);
        assert(Seq::<Seq<u8>>::empty().push(name) =~= parts);
    } else {
        let init = parts.drop_last();
        let name = parts.last();
        assert forall|k: int, i: int| 0 <= k < init.len() && 0 <= i < init[k].len() implies
            #[trigger] init[k][i] != 47u8 by {
            assert(parts[k][i] != 47u8);
        }
        assert forall|k: int| 0 <= k < init.len() implies (#[trigger] init[k]).len() > 0 && init[k]
            != seq![46u8] by {
            assert(init[k] == parts[k]);
        }
        law_rendered_paths_come_apart(absolute, init);
        assert forall|i: int| 0 <= i < name.len() implies #[trigger] name[i] != 47u8 by {
            assert(parts[parts.len() - 1][i] != 47u8);
        }
        assert(name.len() > 0 && name != seq![46u8]) by {
            assert(parts[parts.len() - 1] == name);
        }
        let before = rendered(absolute, init);
        law_names_are_components(before, name);
        assert(rendered(absolute, parts) =~= before + seq![47u8] + name);
        assert(before.len() > 0) by {
            if before.len() == 0 {
                assert(before =~= Seq::empty());
                law_names_are_components(before, Seq::empty());
                assert(init.len() == 0);
            }
        }
        assert(components(before).push(name) =~= parts);
    }
}

/// How often slashes are written, and whether they end a path, makes no
/// difference; another name does.
pub proof fn law_same_names_same_path(p: Seq<u8>, a: Seq<u8>, b: Seq<u8>)
    requires
        p.len() > 0,
        a.len() > 0 && a != seq![46u8],
        b.len() > 0 && b != seq![46u8],
        forall|i: int| 0 <= i < a.len() ==> #[trigger] a[i] != 47u8,
        forall|i: int| 0 <= i < b.len() ==> #[trigger] b[i] != 47u8,
    ensures
        same_path(p, p + seq![47u8]),
        same_path(p + seq![47u8] + a, p + seq![47u8, 47u8] + a),
        same_path(p + seq![47u8] + a, p + seq![47u8] + b) <==> a == b,
        !same_path(p, p + seq![47u8] + a),
        !same_path(a, seq![47u8] + a),
        file_name_of(p + seq![47u8] + a) == if a == seq![46u8, 46u8] {
            None
        } else {
            Some(a)
        },
{
    let none: Seq<u8> = Seq::empty();
    let slashed = p + seq![47u8];
    assert(slashed + none =~= slashed);
    law_names_are_components(p, none);
    law_names_are_components(p, a);
    law_names_are_components(p, b);
    law_names_are_components(slashed, a);
    assert(slashed + seq![47u8] + a =~= p + seq![47u8, 47u8] + a);
    assert(is_absolute(seq![47u8] + a));
    assert(!is_absolute(a)) by {
        assert(a[0] != 47u8);
    }
    let c = components(p);
    assert(c.push(a).last() == a && c.push(b).last() == b);
    assert(c.push(a).len() == c.len() + 1);
}

/// A file has the extension `rc` exactly if its name is another name with `.rc`
/// behind it.
pub proof fn law_rc_files_end_in_rc(stem: Seq<u8>, name: Seq<u8>)
    ensures
        stem.len() > 0 ==> has_rc_extension(stem + seq![46u8, 114u8, 99u8]),
        has_rc_extension(name) ==> name == name.take(name.len() - 3) + seq![46u8, 114u8, 99u8],
        !has_rc_extension(seq![46u8, 114u8, 99u8]),
{
    let end = seq![46u8, 114u8, 99u8];
    let whole = stem + end;
    assert(whole.subrange(whole.len() - 3, whole.len() as int) =~= end);
    if has_rc_extension(name) {
        assert(name =~= name.take(name.len() - 3) + name.subrange(
            name.len() - 3,
            name.len() as int,
        ));
    }
}

} // verus!
