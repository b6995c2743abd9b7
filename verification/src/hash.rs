//! The hash of a file's archive serialisation, under which the file is shared.
use vstd::prelude::*;
use vstd::utf8;

verus! {

/// A running digest of `harmonia_utils_hash`.
#[verifier::external_type_specification]
#[verifier::external_body]
pub struct ExContext(harmonia_utils_hash::Context);

/// The bytes that a running digest has been fed.
pub uninterp spec fn fed(ctx: harmonia_utils_hash::Context) -> Seq<u8>;

/// A running digest computes SHA-256.
pub uninterp spec fn is_sha256(ctx: harmonia_utils_hash::Context) -> bool;

/// The SHA-256 digest of `data` in the base-32 notation of store paths.
pub uninterp spec fn sha256_nix32(data: Seq<u8>) -> Seq<char>;

/// `harmonia_utils_hash::Context::new` with SHA-256 starts a digest of nothing.
#[verifier::external_body]
fn new_context() -> (ctx: harmonia_utils_hash::Context)
    ensures
        fed(ctx) == Seq::<u8>::empty(),
        is_sha256(ctx),
{
    harmonia_utils_hash::Context::new(harmonia_utils_hash::Algorithm::SHA256)
}

/// `harmonia_utils_hash::Context::update` appends to what is digested, and keeps
/// the algorithm.
#[verifier::external_body]
fn feed(ctx: &mut harmonia_utils_hash::Context, data: &[u8])
    ensures
        fed(*final(ctx)) == fed(*old(ctx)) + data@,
        is_sha256(*final(ctx)) == is_sha256(*old(ctx)),
{
    ctx.update(data)
}

/// `harmonia_utils_hash::Context::finish` gives the digest of all that was fed,
/// here of SHA-256 and written bare in base 32. It panics on inputs of 2^61 bytes and more.
#[verifier::external_body]
fn finish_nix32(ctx: harmonia_utils_hash::Context) -> (r: String)
    requires
        fed(ctx).len() <= 0x1fff_ffff_ffff_ffff,
        is_sha256(ctx),
    ensures
        r@ == sha256_nix32(fed(ctx)),
{
    harmonia_utils_hash::fmt::CommonHash::as_base32(&ctx.finish()).as_bare().to_string()
}

/// The `k` lowest bytes of `n`, lowest first.
pub open spec fn le_bytes(n: int, k: nat) -> Seq<u8>
    decreases k,
{
    if k == 0 {
        Seq::empty()
    } else {
        seq![(n % 256) as u8] + le_bytes(n / 256, (k - 1) as nat)
    }
}

/// How many zeros bring a length to a multiple of eight.
pub open spec fn padding(len: int) -> nat {
    ((8 - len % 8) % 8) as nat
}

/// So many zeros.
pub open spec fn zeros(k: nat) -> Seq<u8> {
    Seq::new(k, |i: int| 0u8)
}

/// A string of the archive format: its length in eight bytes, its bytes, and
/// zeros up to a multiple of eight.
pub open spec fn nar_str(s: Seq<u8>) -> Seq<u8> {
    le_bytes(s.len() as int, 8) + s + zeros(padding(s.len() as int))
}

/// A keyword of the archive format.
pub open spec fn token(s: Seq<char>) -> Seq<u8> {
    nar_str(utf8::encode_utf8(s))
}

/// What precedes the contents of a regular file.
pub open spec fn file_head(executable: bool, len: int) -> Seq<u8> {
    let head = token("nix-archive-1"@) + token("("@) + token("type"@) + token("regular"@);
    let head = if executable {
        head + token("executable"@) + token(""@)
    } else {
        head
    };
    head + token("contents"@) + le_bytes(len, 8)
}

/// What follows the contents of a regular file.
pub open spec fn file_tail(len: int) -> Seq<u8> {
    zeros(padding(len)) + token(")"@)
}

/// The archive of a regular file.
pub open spec fn nar_of_file(executable: bool, contents: Seq<u8>) -> Seq<u8> {
    file_head(executable, contents.len() as int) + contents + file_tail(contents.len() as int)
}

/// The archive of a symlink.
pub open spec fn nar_of_symlink(target: Seq<u8>) -> Seq<u8> {
    token("nix-archive-1"@) + token("("@) + token("type"@) + token("symlink"@) + token("target"@)
        + nar_str(target) + token(")"@)
}

proof fn lemma_le_len(n: int, k: nat)
    ensures
        le_bytes(n, k).len() == k,
    decreases k,
{
    if k > 0 {
        lemma_le_len(n / 256, (k - 1) as nat);
    }
}

/// Append the eight bytes of `n`.
fn put_len(out: &mut Vec<u8>, n: u64)
    ensures
        final(out)@ == old(out)@ + le_bytes(n as int, 8),
{
    let ghost start = out@;
    let mut rest: u64 = n;
    let mut k: u64 = 0;
    while k < 8
        invariant
            k <= 8,
            start + le_bytes(n as int, 8) == out@ + le_bytes(rest as int, (8 - k) as nat),
        decreases 8 - k,
    {
        let ghost before = out@;
        out.push((rest % 256) as u8);
        proof {
            assert(before + le_bytes(rest as int, (8 - k) as nat) =~= out@ + le_bytes(
                rest as int / 256,
                (8 - k - 1) as nat,
            ));
        }
        rest = rest / 256;
        k += 1;
    }
    assert(out@ + le_bytes(rest as int, 0) =~= out@);
}

/// Append zeros up to a multiple of eight after `len` bytes.
fn put_padding(out: &mut Vec<u8>, len: u64)
    ensures
        final(out)@ == old(out)@ + zeros(padding(len as int)),
{
    let ghost start = out@;
    let pad: u64 = (8 - len % 8) % 8;
    let mut k: u64 = 0;
    while k < pad
        invariant
            k <= pad,
            pad == padding(len as int),
            out@ == start + zeros(k as nat),
        decreases pad - k,
    {
        out.push(0);
        k += 1;
        assert(out@ =~= start + zeros(k as nat));
    }
}

/// Append a string of the archive format.
fn put_str(out: &mut Vec<u8>, s: &[u8])
    ensures
        final(out)@ == old(out)@ + nar_str(s@),
{
    let ghost start = out@;
    put_len(out, s.len() as u64);
    let ghost second = out@;
    out.extend_from_slice(s);
    assert(out@ =~= second + s@);
    put_padding(out, s.len() as u64);
    assert(out@ =~= start + nar_str(s@));
}

/// Append a keyword of the archive format.
fn put_token(out: &mut Vec<u8>, s: &str)
    ensures
        final(out)@ == old(out)@ + token(s@),
{
    put_str(out, s.as_bytes());
}

proof fn lemma_token_len(s: Seq<char>)
    requires
        utf8::is_ascii_chars(s),
        s.len() <= 16,
    ensures
        token(s).len() <= 24,
{
    utf8::is_ascii_chars_encode_utf8(s);
    lemma_le_len(s.len() as int, 8);
}

proof fn lemma_head_len(executable: bool, len: int)
    ensures
        file_head(executable, len).len() <= 200,
{
    reveal_strlit("nix-archive-1");
    reveal_strlit("(");
    reveal_strlit("type");
    reveal_strlit("regular");
    reveal_strlit("executable");
    reveal_strlit("");
    reveal_strlit("contents");
    lemma_token_len("nix-archive-1"@);
    lemma_token_len("("@);
    lemma_token_len("type"@);
    lemma_token_len("regular"@);
    lemma_token_len("executable"@);
    lemma_token_len(""@);
    lemma_token_len("contents"@);
    lemma_le_len(len, 8);
}

proof fn lemma_tail_len(len: int)
    ensures
        file_tail(len).len() <= 32,
{
    reveal_strlit(")");
    lemma_token_len(")"@);
}

proof fn lemma_symlink_len(target: Seq<u8>)
    ensures
        nar_of_symlink(target).len() <= target.len() + 200,
{
    reveal_strlit("nix-archive-1");
    reveal_strlit("(");
    reveal_strlit("type");
    reveal_strlit("symlink");
    reveal_strlit("target");
    reveal_strlit(")");
    lemma_token_len("nix-archive-1"@);
    lemma_token_len("("@);
    lemma_token_len("type"@);
    lemma_token_len("symlink"@);
    lemma_token_len("target"@);
    lemma_token_len(")"@);
    lemma_le_len(target.len() as int, 8);
}

/// The largest file whose archive can be hashed.
pub const MAX_FILE_LEN: u64 = 0x1fff_ffff_ffff_0000;

/// Hashes the archive of a regular file while its contents are read.
pub struct NarHasher {
    ctx: harmonia_utils_hash::Context,
    len: u64,
    seen: u64,
    executable: bool,
    contents: Ghost<Seq<u8>>,
}

impl NarHasher {
    /// The contents seen so far belong to a file of the announced length.
    pub closed spec fn wf(&self) -> bool {
        &&& self.len <= MAX_FILE_LEN
        &&& self.seen <= self.len
        &&& self.seen == self.contents@.len()
        &&& fed(self.ctx) == file_head(self.executable, self.len as int) + self.contents@
        &&& is_sha256(self.ctx)
    }

    /// The contents seen so far.
    pub closed spec fn contents(&self) -> Seq<u8> {
        self.contents@
    }

    /// The announced length of the file.
    pub closed spec fn len(&self) -> int {
        self.len as int
    }

    /// Whether the file is executable.
    pub closed spec fn executable(&self) -> bool {
        self.executable
    }

    /// Begin the archive of a file with `len` bytes of contents.
    pub fn start(executable: bool, len: u64) -> (r: NarHasher)
        requires
            len <= MAX_FILE_LEN,
        ensures
            r.wf(),
            r.executable() == executable,
            r.len() == len,
            r.contents() == Seq::<u8>::empty(),
    {
        let mut head: Vec<u8> = Vec::new();
        put_token(&mut head, "nix-archive-1");
        put_token(&mut head, "(");
        put_token(&mut head, "type");
        put_token(&mut head, "regular");
        if executable {
            put_token(&mut head, "executable");
            put_token(&mut head, "");
        }
        put_token(&mut head, "contents");
        put_len(&mut head, len);
        let mut ctx = new_context();
        feed(&mut ctx, &head);
        proof {
            assert(head@ =~= file_head(executable, len as int));
            assert(fed(ctx) =~= file_head(executable, len as int) + Seq::<u8>::empty());
        }
        NarHasher { ctx, len, seen: 0, executable, contents: Ghost(Seq::empty()) }
    }

    /// How many bytes of contents are still to come.
    pub fn remaining(&self) -> (r: u64)
        requires
            self.wf(),
        ensures
            r == self.len() - self.contents().len(),
    {
        self.len - self.seen
    }

    /// Take the next bytes of the contents.
    pub fn update(&mut self, chunk: &[u8])
        requires
            old(self).wf(),
            old(self).contents().len() + chunk@.len() <= old(self).len(),
        ensures
            final(self).wf(),
            final(self).executable() == old(self).executable(),
            final(self).len() == old(self).len(),
            final(self).contents() == old(self).contents() + chunk@,
    {
        let ghost before = fed(self.ctx);
        feed(&mut self.ctx, chunk);
        self.seen = self.seen + chunk.len() as u64;
        self.contents = Ghost(self.contents@ + chunk@);
        proof {
            assert(fed(self.ctx) =~= file_head(self.executable, self.len as int)
                + self.contents@);
        }
    }

    /// The hash of the whole archive.
    pub fn finish(self) -> (r: String)
        requires
            self.wf(),
            self.contents().len() == self.len(),
        ensures
            r@ == sha256_nix32(nar_of_file(self.executable(), self.contents())),
    {
        let mut tail: Vec<u8> = Vec::new();
        put_padding(&mut tail, self.len);
        put_token(&mut tail, ")");
        let mut ctx = self.ctx;
        feed(&mut ctx, &tail);
        proof {
            assert(tail@ =~= file_tail(self.len as int));
            lemma_head_len(self.executable, self.len as int);
            lemma_tail_len(self.len as int);
        }
        finish_nix32(ctx)
    }
}

/// The hash of the archive of a symlink.
fn nar_hash_symlink(target: &[u8]) -> (r: String)
    requires
        target@.len() <= MAX_FILE_LEN,
    ensures
        r@ == sha256_nix32(nar_of_symlink(target@)),
{
    let mut nar: Vec<u8> = Vec::new();
    put_token(&mut nar, "nix-archive-1");
    put_token(&mut nar, "(");
    put_token(&mut nar, "type");
    put_token(&mut nar, "symlink");
    put_token(&mut nar, "target");
    put_str(&mut nar, target);
    put_token(&mut nar, ")");
    let mut ctx = new_context();
    feed(&mut ctx, &nar);
    proof {
        assert(fed(ctx) =~= nar_of_symlink(target@));
        lemma_symlink_len(target@);
    }
    finish_nix32(ctx)
}

/// What an archive can hold that is shared between store paths.
pub enum NarNode {
    Regular { executable: bool, contents: Vec<u8> },
    Symlink { target: Vec<u8> },
}

impl NarNode {
    /// The archive of the node.
    pub open spec fn nar(&self) -> Seq<u8> {
        match self {
            NarNode::Regular { executable, contents } => nar_of_file(*executable, contents@),
            NarNode::Symlink { target } => nar_of_symlink(target@),
        }
    }

    /// The length of the contents or the target.
    pub open spec fn payload_len(&self) -> nat {
        match self {
            NarNode::Regular { contents, .. } => contents@.len(),
            NarNode::Symlink { target } => target@.len(),
        }
    }
}

/// SHA-256 over the archive serialisation, bare in base 32: the name under
/// which the node is shared.
pub fn nar_hash_nix32(node: &NarNode) -> (r: String)
    requires
        node.payload_len() <= MAX_FILE_LEN,
    ensures
        r@ == sha256_nix32(node.nar()),
        node matches NarNode::Regular { executable, contents } ==> r@ == sha256_nix32(
            nar_of_file(*executable, contents@),
        ),
        node matches NarNode::Symlink { target } ==> r@ == sha256_nix32(nar_of_symlink(target@)),
{
    match node {
        NarNode::Regular { executable, contents } => {
            let mut h = NarHasher::start(*executable, contents.len() as u64);
            h.update(contents);
            assert(h.contents() =~= contents@);
            h.finish()
        },
        NarNode::Symlink { target } => nar_hash_symlink(target),
    }
}

proof fn lemma_le_injective(n: int, m: int, k: nat, bound: int)
    requires
        0 <= n < bound,
        0 <= m < bound,
        bound == vstd::arithmetic::power::pow(256, k),
        le_bytes(n, k) == le_bytes(m, k),
    ensures
        n == m,
    decreases k,
{
    reveal(vstd::arithmetic::power::pow);
    if k > 0 {
        let rest: nat = (k - 1) as nat;
        let b = vstd::arithmetic::power::pow(256, rest);
        assert(le_bytes(n, k)[0] == (n % 256) as u8);
        assert(le_bytes(m, k)[0] == (m % 256) as u8);
        assert(le_bytes(n, k).skip(1) =~= le_bytes(n / 256, rest));
        assert(le_bytes(m, k).skip(1) =~= le_bytes(m / 256, rest));
        assert(bound == 256 * b);
        assert(n / 256 < b && m / 256 < b);
        lemma_le_injective(n / 256, m / 256, rest, b);
    }
}

/// A string of the archive format tells where it ends.
proof fn lemma_str_splits(a: Seq<u8>, b: Seq<u8>, x: Seq<u8>, y: Seq<u8>)
    requires
        a.len() <= MAX_FILE_LEN,
        b.len() <= MAX_FILE_LEN,
        nar_str(a) + x == nar_str(b) + y,
    ensures
        a == b,
        x == y,
{
    let p = nar_str(a) + x;
    let q = nar_str(b) + y;
    lemma_le_len(a.len() as int, 8);
    lemma_le_len(b.len() as int, 8);
    assert(p.take(8) =~= le_bytes(a.len() as int, 8));
    assert(q.take(8) =~= le_bytes(b.len() as int, 8));
    assert(vstd::arithmetic::power::pow(256, 8) == 0x1_0000_0000_0000_0000) by {
        reveal_with_fuel(vstd::arithmetic::power::pow, 9);
    }
    lemma_le_injective(a.len() as int, b.len() as int, 8, 0x1_0000_0000_0000_0000);
    let n = a.len() as int;
    assert(p.subrange(8, 8 + n) =~= a);
    assert(q.subrange(8, 8 + n) =~= b);
    let end = 8 + n + padding(n);
    assert(p.skip(end) =~= x);
    assert(q.skip(end) =~= y);
}

/// Texts with the same encoding are equal.
proof fn lemma_encoding_injective(s: Seq<char>, t: Seq<char>)
    requires
        utf8::encode_utf8(s) == utf8::encode_utf8(t),
    ensures
        s == t,
{
    utf8::encode_utf8_decode_utf8(s);
    utf8::encode_utf8_decode_utf8(t);
}

/// What follows the keyword for the type of a regular file.
spec fn after_regular(executable: bool, contents: Seq<u8>) -> Seq<u8> {
    let data = token("contents"@) + (nar_str(contents) + token(")"@));
    if executable {
        token("executable"@) + (token(""@) + data)
    } else {
        data
    }
}

/// What follows the keyword for the type of a symlink.
spec fn after_symlink(target: Seq<u8>) -> Seq<u8> {
    token("target"@) + (nar_str(target) + token(")"@))
}

/// An archive: keywords, the type, and what follows.
spec fn archive(kind: Seq<char>, rest: Seq<u8>) -> Seq<u8> {
    token("nix-archive-1"@) + (token("("@) + (token("type"@) + (token(kind) + rest)))
}

proof fn lemma_assoc(a: Seq<u8>, b: Seq<u8>, c: Seq<u8>)
    ensures
        (a + b) + c == a + (b + c),
{
    assert((a + b) + c =~= a + (b + c));
}

/// What precedes the type of an archive can be set apart from what follows.
proof fn lemma_archive_joins(kind: Seq<char>, rest: Seq<u8>)
    ensures
        archive(kind, rest) == (token("nix-archive-1"@) + token("("@) + token("type"@) + token(
            kind,
        )) + rest,
{
    let magic = token("nix-archive-1"@);
    let open = token("("@);
    let typed = token("type"@);
    let k = token(kind);
    lemma_assoc(magic + open + typed, k, rest);
    lemma_assoc(magic + open, typed, k + rest);
    lemma_assoc(magic, open, typed + (k + rest));
}

proof fn lemma_file_archive(executable: bool, contents: Seq<u8>)
    ensures
        nar_of_file(executable, contents) == archive(
            "regular"@,
            after_regular(executable, contents),
        ),
{
    let n = contents.len() as int;
    let head = token("nix-archive-1"@) + token("("@) + token("type"@) + token("regular"@);
    let con = token("contents"@);
    let data = con + (nar_str(contents) + token(")"@));
    let le = le_bytes(n, 8);
    let pad = zeros(padding(n));
    let end = token(")"@);
    let before = if executable {
        head + token("executable"@) + token(""@)
    } else {
        head
    };
    assert(nar_of_file(executable, contents) == (before + con + le) + contents + (pad + end));
    let x = before + con;
    lemma_assoc(x, le, contents);
    lemma_assoc(x, le + contents, pad + end);
    lemma_assoc(le + contents, pad, end);
    lemma_assoc(before, con, (le + contents + pad) + end);
    if executable {
        lemma_assoc(head + token("executable"@), token(""@), data);
        lemma_assoc(head, token("executable"@), token(""@) + data);
    }
    lemma_archive_joins("regular"@, after_regular(executable, contents));
}

proof fn lemma_symlink_archive(target: Seq<u8>)
    ensures
        nar_of_symlink(target) == archive("symlink"@, after_symlink(target)),
{
    assert(nar_of_symlink(target) =~= archive("symlink"@, after_symlink(target)));
}

proof fn lemma_short_token(s: Seq<char>)
    requires
        utf8::is_ascii_chars(s),
    ensures
        utf8::encode_utf8(s).len() == s.len(),
{
    utf8::is_ascii_chars_encode_utf8(s);
}

proof fn lemma_archive_splits(k1: Seq<char>, r1: Seq<u8>, k2: Seq<char>, r2: Seq<u8>)
    requires
        utf8::encode_utf8(k1).len() <= 16,
        utf8::encode_utf8(k2).len() <= 16,
        archive(k1, r1) == archive(k2, r2),
    ensures
        k1 == k2,
        r1 == r2,
{
    reveal_strlit("nix-archive-1");
    reveal_strlit("(");
    reveal_strlit("type");
    lemma_short_token("nix-archive-1"@);
    lemma_short_token("("@);
    lemma_short_token("type"@);
    let magic = utf8::encode_utf8("nix-archive-1"@);
    let open = utf8::encode_utf8("("@);
    let typed = utf8::encode_utf8("type"@);
    let (b1, b2) = (token(k1) + r1, token(k2) + r2);
    let (c1, c2) = (token("type"@) + b1, token("type"@) + b2);
    lemma_str_splits(magic, magic, token("("@) + c1, token("("@) + c2);
    lemma_str_splits(open, open, c1, c2);
    lemma_str_splits(typed, typed, b1, b2);
    lemma_str_splits(utf8::encode_utf8(k1), utf8::encode_utf8(k2), r1, r2);
    lemma_encoding_injective(k1, k2);
}

/// The keywords of a regular file are short.
proof fn lemma_file_keywords()
    ensures
        utf8::encode_utf8("regular"@).len() == 7,
        utf8::encode_utf8("executable"@).len() == 10,
        utf8::encode_utf8("contents"@).len() == 8,
        utf8::encode_utf8(""@).len() == 0,
{
    reveal_strlit("regular");
    reveal_strlit("executable");
    reveal_strlit("contents");
    reveal_strlit("");
    lemma_short_token("regular"@);
    lemma_short_token("executable"@);
    lemma_short_token("contents"@);
    lemma_short_token(""@);
}

/// What follows the keyword for the type of a regular file tells what it holds.
proof fn lemma_regular_splits(e1: bool, c1: Seq<u8>, e2: bool, c2: Seq<u8>)
    requires
        c1.len() <= MAX_FILE_LEN,
        c2.len() <= MAX_FILE_LEN,
        after_regular(e1, c1) == after_regular(e2, c2),
    ensures
        e1 == e2,
        c1 == c2,
{
    lemma_file_keywords();
    let exe = utf8::encode_utf8("executable"@);
    let con = utf8::encode_utf8("contents"@);
    let non = utf8::encode_utf8(""@);
    let (d1, d2) = (nar_str(c1) + token(")"@), nar_str(c2) + token(")"@));
    let (f1, f2) = (token("contents"@) + d1, token("contents"@) + d2);
    if e1 && e2 {
        lemma_str_splits(exe, exe, token(""@) + f1, token(""@) + f2);
        lemma_str_splits(non, non, f1, f2);
    } else if e1 {
        lemma_str_splits(exe, con, token(""@) + f1, d2);
    } else if e2 {
        lemma_str_splits(con, exe, d1, token(""@) + f2);
    }
    lemma_str_splits(con, con, d1, d2);
    lemma_str_splits(c1, c2, token(")"@), token(")"@));
}

/// Regular files with the same archive have the same contents and are both
/// executable or both not.
pub proof fn law_file_archives_differ(e1: bool, c1: Seq<u8>, e2: bool, c2: Seq<u8>)
    requires
        c1.len() <= MAX_FILE_LEN,
        c2.len() <= MAX_FILE_LEN,
        nar_of_file(e1, c1) == nar_of_file(e2, c2),
    ensures
        e1 == e2,
        c1 == c2,
{
    let (r1, r2) = (after_regular(e1, c1), after_regular(e2, c2));
    assert(archive("regular"@, r1) == archive("regular"@, r2)) by {
        lemma_file_archive(e1, c1);
        lemma_file_archive(e2, c2);
    }
    assert(r1 == r2) by {
        lemma_file_keywords();
        lemma_archive_splits("regular"@, r1, "regular"@, r2);
    }
    lemma_regular_splits(e1, c1, e2, c2);
}

/// Symlinks with the same archive have the same target.
pub proof fn law_symlink_archives_differ(t1: Seq<u8>, t2: Seq<u8>)
    requires
        t1.len() <= MAX_FILE_LEN,
        t2.len() <= MAX_FILE_LEN,
        nar_of_symlink(t1) == nar_of_symlink(t2),
    ensures
        t1 == t2,
{
    lemma_symlink_archive(t1);
    lemma_symlink_archive(t2);
    reveal_strlit("symlink");
    reveal_strlit("target");
    lemma_short_token("symlink"@);
    lemma_short_token("target"@);
    lemma_archive_splits("symlink"@, after_symlink(t1), "symlink"@, after_symlink(t2));
    let tar = utf8::encode_utf8("target"@);
    lemma_str_splits(tar, tar, nar_str(t1) + token(")"@), nar_str(t2) + token(")"@));
    lemma_str_splits(t1, t2, token(")"@), token(")"@));
}

/// A regular file and a symlink never have the same archive.
pub proof fn law_file_is_no_symlink(executable: bool, contents: Seq<u8>, target: Seq<u8>)
    ensures
        nar_of_file(executable, contents) != nar_of_symlink(target),
{
    lemma_file_archive(executable, contents);
    lemma_symlink_archive(target);
    reveal_strlit("regular");
    reveal_strlit("symlink");
    lemma_short_token("regular"@);
    lemma_short_token("symlink"@);
    if nar_of_file(executable, contents) == nar_of_symlink(target) {
        lemma_archive_splits(
            "regular"@,
            after_regular(executable, contents),
            "symlink"@,
            after_symlink(target),
        );
        assert("regular"@[0] == 'r');
        assert("symlink"@[0] == 's');
    }
}

/// The eight bytes of a number, lowest first, add up to it.
proof fn lemma_eight_bytes(n: int)
    requires
        0 <= n < 0x1_0000_0000_0000_0000,
    ensures
        le_bytes(n, 8).len() == 8,
        n == le_bytes(n, 8)[0] + 0x100 * le_bytes(n, 8)[1] + 0x1_0000 * le_bytes(n, 8)[2]
            + 0x100_0000 * le_bytes(n, 8)[3] + 0x1_0000_0000 * le_bytes(n, 8)[4] + 0x100_0000_0000
            * le_bytes(n, 8)[5] + 0x1_0000_0000_0000 * le_bytes(n, 8)[6] + 0x100_0000_0000_0000
            * le_bytes(n, 8)[7],
{
    let n1 = n / 256;
    let n2 = n1 / 256;
    let n3 = n2 / 256;
    let n4 = n3 / 256;
    let n5 = n4 / 256;
    let n6 = n5 / 256;
    let n7 = n6 / 256;
    lemma_first_byte(n, 8);
    lemma_first_byte(n1, 7);
    lemma_first_byte(n2, 6);
    lemma_first_byte(n3, 5);
    lemma_first_byte(n4, 4);
    lemma_first_byte(n5, 3);
    lemma_first_byte(n6, 2);
    lemma_first_byte(n7, 1);
    assert(n7 < 256);
}

proof fn lemma_first_byte(n: int, k: nat)
    requires
        k > 0,
    ensures
        le_bytes(n, k).len() == k,
        le_bytes(n, k)[0] == n % 256,
        forall|i: int|
            0 <= i < k - 1 ==> #[trigger] le_bytes(n, k)[i + 1] == le_bytes(
                n / 256,
                (k - 1) as nat,
            )[i],
        forall|i: int|
            1 <= i < k ==> #[trigger] le_bytes(n, k)[i] == le_bytes(n / 256, (k - 1) as nat)[i - 1],
{
    lemma_le_len(n / 256, (k - 1) as nat);
}

/// A string of the archive format is its length in eight bytes, lowest first,
/// then its bytes, then zeros up to the next multiple of eight: none where the
/// length is such a multiple.
pub proof fn law_strings_are_padded_to_eight(s: Seq<u8>)
    requires
        s.len() < 0x1_0000_0000_0000_0000,
    ensures
        nar_str(s).len() % 8 == 0,
        8 + s.len() <= nar_str(s).len() < 16 + s.len(),
        s.len() == nar_str(s)[0] + 0x100 * nar_str(s)[1] + 0x1_0000 * nar_str(s)[2] + 0x100_0000
            * nar_str(s)[3] + 0x1_0000_0000 * nar_str(s)[4] + 0x100_0000_0000 * nar_str(s)[5]
            + 0x1_0000_0000_0000 * nar_str(s)[6] + 0x100_0000_0000_0000 * nar_str(s)[7],
        nar_str(s).subrange(8, 8 + s.len() as int) == s,
        forall|i: int| 8 + s.len() <= i < nar_str(s).len() ==> #[trigger] nar_str(s)[i] == 0,
{
    let n = s.len() as int;
    let le = le_bytes(n, 8);
    lemma_eight_bytes(n);
    let whole = nar_str(s);
    assert(whole.subrange(8, 8 + n) =~= s);
    assert(whole[0] == le[0] && whole[1] == le[1] && whole[2] == le[2] && whole[3] == le[3]);
    assert(whole[4] == le[4] && whole[5] == le[5] && whole[6] == le[6] && whole[7] == le[7]);
    assert forall|i: int| 8 + n <= i < whole.len() implies #[trigger] whole[i] == 0 by {
        assert(whole[i] == zeros(padding(n))[i - 8 - n]);
    }
}

proof fn lemma_padded_len(s: Seq<u8>)
    ensures
        nar_str(s).len() == 8 + (s.len() + 7) / 8 * 8,
{
    lemma_le_len(s.len() as int, 8);
}

/// The archive of a regular file is a row of strings, the contents among them.
pub proof fn law_file_archive_is_a_row_of_strings(executable: bool, contents: Seq<u8>)
    ensures
        nar_of_file(executable, contents) == if executable {
            nar_str(utf8::encode_utf8("nix-archive-1"@)) + nar_str(utf8::encode_utf8("("@))
                + nar_str(utf8::encode_utf8("type"@)) + nar_str(utf8::encode_utf8("regular"@))
                + nar_str(utf8::encode_utf8("executable"@)) + nar_str(utf8::encode_utf8(""@))
                + nar_str(utf8::encode_utf8("contents"@)) + nar_str(contents) + nar_str(
                utf8::encode_utf8(")"@),
            )
        } else {
            nar_str(utf8::encode_utf8("nix-archive-1"@)) + nar_str(utf8::encode_utf8("("@))
                + nar_str(utf8::encode_utf8("type"@)) + nar_str(utf8::encode_utf8("regular"@))
                + nar_str(utf8::encode_utf8("contents"@)) + nar_str(contents) + nar_str(
                utf8::encode_utf8(")"@),
            )
        },
{
    let n = contents.len() as int;
    let head = token("nix-archive-1"@) + token("("@) + token("type"@) + token("regular"@);
    let before = if executable {
        head + token("executable"@) + token(""@)
    } else {
        head
    };
    let x = before + token("contents"@);
    let le = le_bytes(n, 8);
    let pad = zeros(padding(n));
    let end = token(")"@);
    lemma_assoc(x, le, contents);
    lemma_assoc(x + (le + contents), pad, end);
    lemma_assoc(x, le + contents, pad);
}

/// The archive of a symlink is a row of strings, the target among them.
pub proof fn law_symlink_archive_is_a_row_of_strings(target: Seq<u8>)
    ensures
        nar_of_symlink(target) == nar_str(utf8::encode_utf8("nix-archive-1"@)) + nar_str(
            utf8::encode_utf8("("@),
        ) + nar_str(utf8::encode_utf8("type"@)) + nar_str(utf8::encode_utf8("symlink"@)) + nar_str(
            utf8::encode_utf8("target"@),
        ) + nar_str(target) + nar_str(utf8::encode_utf8(")"@)),
{
}

/// The keywords around the contents of a regular file take 112 bytes, or 144 if
/// it is executable, and those around the target of a symlink 112. The contents
/// and the target take the least multiple of eight that holds them.
pub proof fn law_archive_lengths(contents: Seq<u8>)
    ensures
        nar_of_file(false, contents).len() == 112 + (contents.len() + 7) / 8 * 8,
        nar_of_file(true, contents).len() == 144 + (contents.len() + 7) / 8 * 8,
        nar_of_symlink(contents).len() == 112 + (contents.len() + 7) / 8 * 8,
        contents.len() % 8 == 0 ==> nar_of_file(false, contents).len() == 112 + contents.len(),
        contents.len() % 8 == 0 ==> nar_of_file(true, contents).len() == 144 + contents.len(),
        contents.len() % 8 == 0 ==> nar_of_symlink(contents).len() == 112 + contents.len(),
{
    reveal_strlit("nix-archive-1");
    reveal_strlit("(");
    reveal_strlit("type");
    reveal_strlit("symlink");
    reveal_strlit("target");
    reveal_strlit(")");
    lemma_file_keywords();
    lemma_short_token("nix-archive-1"@);
    lemma_short_token("("@);
    lemma_short_token("type"@);
    lemma_short_token("symlink"@);
    lemma_short_token("target"@);
    lemma_short_token(")"@);
    lemma_padded_len(utf8::encode_utf8("nix-archive-1"@));
    lemma_padded_len(utf8::encode_utf8("("@));
    lemma_padded_len(utf8::encode_utf8("type"@));
    lemma_padded_len(utf8::encode_utf8("regular"@));
    lemma_padded_len(utf8::encode_utf8("executable"@));
    lemma_padded_len(utf8::encode_utf8(""@));
    lemma_padded_len(utf8::encode_utf8("contents"@));
    lemma_padded_len(utf8::encode_utf8("symlink"@));
    lemma_padded_len(utf8::encode_utf8("target"@));
    lemma_padded_len(utf8::encode_utf8(")"@));
    lemma_padded_len(contents);
    law_file_archive_is_a_row_of_strings(false, contents);
    law_file_archive_is_a_row_of_strings(true, contents);
    law_symlink_archive_is_a_row_of_strings(contents);
}

} // verus!
