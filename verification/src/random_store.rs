//! Random stores for comparing two collectors: which paths there are, how they
//! depend on each other, which are roots, and the expression that builds them.
use crate::numbers;
use vstd::prelude::*;

verus! {

/// How a store path comes about.
#[derive(Clone, Copy, Debug, PartialEq, Eq, Structural)]
pub enum Kind {
    /// Input-addressed.
    Plain,
    /// Input-addressed, with a second output.
    Multi,
    /// Fixed output, a flat file.
    Fod,
    /// Fixed output, by its archive.
    FodRec,
    /// Content-addressed.
    Ca,
    /// A text written during evaluation.
    Text,
    /// A source tree copied during evaluation.
    Src,
    /// Built anew each time.
    Impure,
}

/// The path is made during evaluation, not by building a derivation.
pub open spec fn at_eval(kind: Kind) -> bool {
    kind == Kind::Text || kind == Kind::Src
}

impl Kind {
    /// Store path created during evaluation, not by building a derivation.
    pub fn is_eval(self) -> (r: bool)
        ensures
            r == at_eval(self),
    {
        self == Kind::Text || self == Kind::Src
    }
}

/// How many draws there are for a kind.
pub const KIND_DRAWS: usize = 10;

/// The kind for a draw; three of them give a plain path.
pub open spec fn drawn_kind(k: int) -> Kind {
    if k < 3 {
        Kind::Plain
    } else if k == 3 {
        Kind::Multi
    } else if k == 4 {
        Kind::Fod
    } else if k == 5 {
        Kind::FodRec
    } else if k == 6 {
        Kind::Ca
    } else if k == 7 {
        Kind::Text
    } else if k == 8 {
        Kind::Src
    } else {
        Kind::Impure
    }
}

/// The kind for a draw.
pub fn kind_of_draw(k: usize) -> (r: Kind)
    ensures
        r == drawn_kind(k as int),
{
    if k < 3 {
        Kind::Plain
    } else if k == 3 {
        Kind::Multi
    } else if k == 4 {
        Kind::Fod
    } else if k == 5 {
        Kind::FodRec
    } else if k == 6 {
        Kind::Ca
    } else if k == 7 {
        Kind::Text
    } else if k == 8 {
        Kind::Src
    } else {
        Kind::Impure
    }
}

/// An output of a path. Only paths with two outputs have a second one.
#[derive(Clone, Copy, Debug, PartialEq, Eq, Structural)]
pub enum Output {
    Out,
    Dev,
}

/// The name of an output.
pub open spec fn output_name(output: Output) -> Seq<char> {
    match output {
        Output::Out => "out"@,
        Output::Dev => "dev"@,
    }
}

/// A path of the store.
pub struct Node {
    pub name: String,
    pub kind: Kind,
    /// Earlier nodes that this one depends on, and by which output.
    pub deps: Vec<(usize, Output)>,
    /// The output that is a root, if any.
    pub root_output: Option<Output>,
    /// Whether its derivation is a root.
    pub root_drv: bool,
}

/// A path of this kind can depend on one of that kind. Paths made during
/// evaluation depend on nothing, and nothing depends on an impure one. The
/// outputs of fixed ones hold no references, so paths made during evaluation
/// are of no use to them.
pub open spec fn may_depend(kind: Kind, dep: Kind) -> bool {
    &&& !at_eval(kind)
    &&& kind != Kind::Impure
    &&& dep != Kind::Impure
    &&& !(at_eval(dep) && (kind == Kind::Fod || kind == Kind::FodRec))
}

/// Whether a path of this kind can depend on one of that kind.
pub fn can_depend(kind: Kind, dep: Kind) -> (r: bool)
    ensures
        r == may_depend(kind, dep),
{
    !kind.is_eval() && kind != Kind::Impure && dep != Kind::Impure && !(dep.is_eval() && (kind
        == Kind::Fod || kind == Kind::FodRec))
}

/// The node depends only on earlier ones, on each at most once, in order, and
/// by outputs that they have.
pub open spec fn deps_fit(nodes: Seq<Node>, i: int) -> bool {
    let node = nodes[i];
    &&& forall|k: int|
        0 <= k < node.deps@.len() ==> {
            let (j, output) = #[trigger] node.deps@[k];
            &&& j < i
            &&& may_depend(node.kind, nodes[j as int].kind)
            &&& output == Output::Dev ==> nodes[j as int].kind == Kind::Multi
        }
    &&& forall|k: int, l: int|
        0 <= k < l < node.deps@.len() ==> (#[trigger] node.deps@[k]).0 < (
        #[trigger] node.deps@[l]).0
}

/// The output paths of the node are known only once it is built: it is
/// content-addressed or depends on such a node.
pub open spec fn deferred(nodes: Seq<Node>, i: int) -> bool
    decreases i,
{
    0 <= i < nodes.len() && (nodes[i].kind == Kind::Ca || exists|k: int|
        #![trigger nodes[i].deps@[k]]
        0 <= k < nodes[i].deps@.len() && nodes[i].deps@[k].0 < i && deferred(
            nodes,
            nodes[i].deps@[k].0 as int,
        ))
}

/// The roots at a node are ones that every collector treats alike. An impure
/// path is never a root, nor is a derivation whose outputs are deferred while
/// outputs are kept: what survives then depends on the order of deletion.
pub open spec fn roots_fit(nodes: Seq<Node>, i: int, keep_outputs: bool) -> bool {
    let node = nodes[i];
    &&& node.kind == Kind::Impure ==> node.root_output is None && !node.root_drv
    &&& node.root_output == Some(Output::Dev) ==> node.kind == Kind::Multi
    &&& node.root_drv ==> !at_eval(node.kind) && !(keep_outputs && deferred(nodes, i))
}

/// The name of a node.
pub open spec fn node_name(i: int) -> Seq<char> {
    seq!['n'] + numbers::decimal(i)
}

/// A store that can be compared.
pub open spec fn is_random_store(nodes: Seq<Node>, keep_outputs: bool) -> bool {
    &&& 6 <= nodes.len() <= 16
    &&& forall|i: int|
        0 <= i < nodes.len() ==> {
            &&& (#[trigger] nodes[i]).name@ == node_name(i)
            &&& deps_fit(nodes, i)
            &&& roots_fit(nodes, i, keep_outputs)
        }
}

/// Where random choices come from. Nothing is asked of them.
pub trait Draws {
    /// A number, meant to be below `n`.
    fn below(&mut self, n: usize) -> usize;

    /// True with this chance.
    fn chance(&mut self, percent: u8) -> bool;
}

/// A draw below `n` that takes the source from state `was` to `now`: the remainder
/// of the number that it hands out. `number(was, n, now, d)` tells that a source
/// in state `was`, asked for a number below `n`, hands out `d` and is then in
/// state `now`.
pub open spec fn number_drawn<D>(
    number: spec_fn(D, usize, D, usize) -> bool,
    was: D,
    n: usize,
    now: D,
    r: usize,
) -> bool {
    exists|d: usize| #[trigger] number(was, n, now, d) && r == d % n
}

/// A choice that takes the source from state `was` to `now`, drawn only if it is
/// open. One that is not is `false` and leaves the source alone.
/// `choice(was, percent, now, b)` tells that a source in state `was`, asked for a
/// choice with this chance, hands out `b` and is then in state `now`.
pub open spec fn drawn_if<D>(
    choice: spec_fn(D, u8, D, bool) -> bool,
    open: bool,
    was: D,
    percent: u8,
    now: D,
    b: bool,
) -> bool {
    if open {
        choice(was, percent, now, b)
    } else {
        now == was && !b
    }
}

/// A draw below `n`, whatever the source hands out.
fn draw_below<D: Draws>(draws: &mut D, n: usize) -> (r: usize)
    requires
        n > 0,
    ensures
        r < n,
        number_drawn(
            |was: D, n: usize, now: D, d: usize|
                exists|source: &mut D| #[trigger]
                    call_ensures(D::below, (source, n), d) && *source == was && *final(source)
                        == now,
            *old(draws),
            n,
            *final(draws),
            r,
        ),
{
    let ghost number = |was: D, n: usize, now: D, d: usize|
        exists|source: &mut D| #[trigger]
            call_ensures(D::below, (source, n), d) && *source == was && *final(source)
                == now;
    let ghost start = *draws;
    let d: usize = draws.below(n);
    assert(number(start, n, *draws, d));
    d % n
}

/// A choice with this chance, drawn only if it is open.
fn draw_if<D: Draws>(draws: &mut D, open: bool, percent: u8) -> (b: bool)
    ensures
        drawn_if(
            |was: D, percent: u8, now: D, b: bool|
                exists|source: &mut D| #[trigger]
                    call_ensures(D::chance, (source, percent), b) && *source == was && *final(source)
                        == now,
            open,
            *old(draws),
            percent,
            *final(draws),
            b,
        ),
{
    open && draws.chance(percent)
}

/// The states that a source goes through in `n` steps, from `was` to `now`.
pub open spec fn leads<D>(states: Seq<D>, n: int, was: D, now: D) -> bool {
    states.len() == n + 1 && states[0] == was && states[n] == now
}

/// The output that something refers to: the second one, if there is one and
/// the draw says so.
pub open spec fn chosen_output(kind: Kind, dev: bool) -> Output {
    if kind == Kind::Multi && dev {
        Output::Dev
    } else {
        Output::Out
    }
}

/// The dependencies among the first `n` nodes: those that a path of this kind
/// can have and that the draw takes, each by the output that the draw says.
pub open spec fn chosen_deps(
    nodes: Seq<Node>,
    kind: Kind,
    takes: Seq<bool>,
    devs: Seq<bool>,
    n: int,
) -> Seq<(usize, Output)>
    decreases n,
{
    if n <= 0 {
        Seq::empty()
    } else {
        let rest = chosen_deps(nodes, kind, takes, devs, n - 1);
        let dep = nodes[n - 1].kind;
        if may_depend(kind, dep) && takes[n - 1] {
            rest.push(((n - 1) as usize, chosen_output(dep, devs[n - 1])))
        } else {
            rest
        }
    }
}

/// The dependencies that the draws give: for each earlier node whether it is
/// taken, and whether by its second output.
pub fn deps_of_draws(nodes: &[Node], kind: Kind, takes: &[bool], devs: &[bool]) -> (deps: Vec<
    (usize, Output),
>)
    requires
        takes@.len() == nodes@.len(),
        devs@.len() == nodes@.len(),
    ensures
        deps@ == chosen_deps(nodes@, kind, takes@, devs@, nodes@.len() as int),
        forall|k: int|
            0 <= k < deps@.len() ==> {
                let (j, output) = #[trigger] deps@[k];
                &&& j < nodes@.len()
                &&& may_depend(kind, nodes@[j as int].kind)
                &&& output == Output::Dev ==> nodes@[j as int].kind == Kind::Multi
            },
        forall|k: int, l: int|
            0 <= k < l < deps@.len() ==> (#[trigger] deps@[k]).0 < (#[trigger] deps@[l]).0,
{
    let mut deps: Vec<(usize, Output)> = Vec::new();
    let n: usize = nodes.len();
    let mut j: usize = 0;
    while j < n
        invariant
            n == nodes@.len(),
            takes@.len() == n,
            devs@.len() == n,
            j <= n,
            deps@ == chosen_deps(nodes@, kind, takes@, devs@, j as int),
            forall|k: int|
                0 <= k < deps@.len() ==> {
                    let (d, output) = #[trigger] deps@[k];
                    &&& d < j
                    &&& may_depend(kind, nodes@[d as int].kind)
                    &&& output == Output::Dev ==> nodes@[d as int].kind == Kind::Multi
                },
            forall|k: int, l: int|
                0 <= k < l < deps@.len() ==> (#[trigger] deps@[k]).0 < (#[trigger] deps@[l]).0,
        decreases n - j,
    {
        let dep = nodes[j].kind;
        if can_depend(kind, dep) && takes[j] {
            deps.push((j, output_of_draw(dep, devs[j])));
        }
        j += 1;
    }
    deps
}

/// The output that something refers to: the second one, if there is one and
/// the draw says so.
pub fn output_of_draw(kind: Kind, dev: bool) -> (r: Output)
    ensures
        r == chosen_output(kind, dev),
{
    if kind == Kind::Multi && dev {
        Output::Dev
    } else {
        Output::Out
    }
}

/// A dependency is what the source hands out between the states `was` and `now`:
/// whether it is taken, and whether by its second output. Only choices that the
/// kinds leave open are drawn.
pub open spec fn dep_drawn<D>(
    choice: spec_fn(D, u8, D, bool) -> bool,
    was: D,
    now: D,
    kind: Kind,
    dep: Kind,
    take: bool,
    dev: bool,
) -> bool {
    exists|s: Seq<D>|
        {
            &&& #[trigger] leads(s, 2, was, now)
            &&& drawn_if(choice, may_depend(kind, dep), s[0], 35, s[1], take)
            &&& drawn_if(choice, take && dep == Kind::Multi, s[1], 50, s[2], dev)
        }
}

/// What a node of this kind depends on among the first `n` nodes is drawn one
/// node after the other.
pub open spec fn deps_drawn<D>(
    choice: spec_fn(D, u8, D, bool) -> bool,
    was: D,
    now: D,
    nodes: Seq<Node>,
    kind: Kind,
    deps: Seq<(usize, Output)>,
    n: int,
) -> bool {
    exists|states: Seq<D>, takes: Seq<bool>, devs: Seq<bool>|
        {
            &&& #[trigger] leads(states, n, was, now)
            &&& takes.len() == n
            &&& devs.len() == n
            &&& deps == #[trigger] chosen_deps(nodes, kind, takes, devs, n)
            &&& forall|j: int|
                #![trigger nodes[j]]
                0 <= j < n ==> dep_drawn(
                    choice,
                    states[j],
                    states[j + 1],
                    kind,
                    nodes[j].kind,
                    takes[j],
                    devs[j],
                )
        }
}

/// Draw what a node of this kind depends on. The second draw is made only for
/// a dependency that is taken and has two outputs.
fn draw_deps<D: Draws>(draws: &mut D, nodes: &[Node], kind: Kind) -> (deps: Vec<(usize, Output)>)
    ensures
        deps_drawn(
            |was: D, percent: u8, now: D, b: bool|
                exists|source: &mut D| #[trigger]
                    call_ensures(D::chance, (source, percent), b) && *source == was && *final(source)
                        == now,
            *old(draws),
            *final(draws),
            nodes@,
            kind,
            deps@,
            nodes@.len() as int,
        ),
        forall|k: int|
            0 <= k < deps@.len() ==> {
                let (j, output) = #[trigger] deps@[k];
                &&& j < nodes@.len()
                &&& may_depend(kind, nodes@[j as int].kind)
                &&& output == Output::Dev ==> nodes@[j as int].kind == Kind::Multi
            },
        forall|k: int, l: int|
            0 <= k < l < deps@.len() ==> (#[trigger] deps@[k]).0 < (#[trigger] deps@[l]).0,
{
    let ghost choice = |was: D, percent: u8, now: D, b: bool|
        exists|source: &mut D| #[trigger]
            call_ensures(D::chance, (source, percent), b) && *source == was && *final(source)
                == now;
    let mut takes: Vec<bool> = Vec::new();
    let mut devs: Vec<bool> = Vec::new();
    let n: usize = nodes.len();
    let ghost start = *draws;
    let ghost mut states = seq![start];
    let mut j: usize = 0;
    while j < n
        invariant
            n == nodes@.len(),
            j <= n,
            takes@.len() == j,
            devs@.len() == j,
            choice == (|was: D, percent: u8, now: D, b: bool|
                exists|source: &mut D| #[trigger]
                    call_ensures(D::chance, (source, percent), b) && *source == was && *final(source)
                        == now),
            leads(states, j as int, start, *draws),
            forall|l: int|
                #![trigger nodes@[l]]
                0 <= l < j ==> dep_drawn(
                    choice,
                    states[l],
                    states[l + 1],
                    kind,
                    nodes@[l].kind,
                    takes@[l],
                    devs@[l],
                ),
        decreases n - j,
    {
        let dep = nodes[j].kind;
        let dep_open = can_depend(kind, dep);
        let take = draw_if(draws, dep_open, 35);
        let ghost mid = *draws;
        let dev = draw_if(draws, take && dep == Kind::Multi, 50);
        let ghost earlier = states;
        takes.push(take);
        devs.push(dev);
        proof {
            states = states.push(*draws);
            assert(leads(seq![earlier[j as int], mid, *draws], 2, earlier[j as int], *draws));
            assert forall|l: int|
                #![trigger nodes@[l]]
                0 <= l < j + 1 implies dep_drawn(
                choice,
                states[l],
                states[l + 1],
                kind,
                nodes@[l].kind,
                takes@[l],
                devs@[l],
            ) by {
                if l < j {
                    assert(states[l] == earlier[l] && states[l + 1] == earlier[l + 1]);
                }
            }
        }
        j += 1;
    }
    assert(leads(states, n as int, start, *draws));
    deps_of_draws(nodes, kind, &takes, &devs)
}

/// The output of a node that is a root, by the draws. An impure path is never
/// one.
pub fn root_of_draws(kind: Kind, rooted: bool, dev: bool) -> (r: Option<Output>)
    ensures
        r == if kind != Kind::Impure && rooted {
            Some(chosen_output(kind, dev))
        } else {
            None
        },
{
    if kind != Kind::Impure && rooted {
        Some(output_of_draw(kind, dev))
    } else {
        None
    }
}

/// The derivation of a node of this kind may be a root.
pub open spec fn drv_may_be_root(kind: Kind, keep_outputs: bool, is_deferred: bool) -> bool {
    kind != Kind::Impure && !at_eval(kind) && !(keep_outputs && is_deferred)
}

/// Whether the derivation of a node of this kind may be a root.
pub fn may_root_drv(kind: Kind, keep_outputs: bool, is_deferred: bool) -> (r: bool)
    ensures
        r == drv_may_be_root(kind, keep_outputs, is_deferred),
{
    kind != Kind::Impure && !kind.is_eval() && !(keep_outputs && is_deferred)
}

/// Which of the nodes have deferred outputs.
fn deferred_nodes(nodes: &[Node]) -> (r: Vec<bool>)
    requires
        forall|i: int| 0 <= i < nodes@.len() ==> #[trigger] deps_fit(nodes@, i),
    ensures
        r@.len() == nodes@.len(),
        forall|i: int| 0 <= i < nodes@.len() ==> #[trigger] r@[i] == deferred(nodes@, i),
{
    let mut r: Vec<bool> = Vec::new();
    let n: usize = nodes.len();
    let mut i: usize = 0;
    while i < n
        invariant
            n == nodes@.len(),
            i <= n,
            forall|j: int| 0 <= j < nodes@.len() ==> #[trigger] deps_fit(nodes@, j),
            r@.len() == i,
            forall|j: int| 0 <= j < i ==> #[trigger] r@[j] == deferred(nodes@, j),
        decreases n - i,
    {
        let mut found = nodes[i].kind == Kind::Ca;
        let m: usize = nodes[i].deps.len();
        let mut k: usize = 0;
        assert(deps_fit(nodes@, i as int));
        while k < m
            invariant
                n == nodes@.len(),
                i < n,
                m == nodes@[i as int].deps@.len(),
                k <= m,
                deps_fit(nodes@, i as int),
                r@.len() == i,
                forall|j: int| 0 <= j < i ==> #[trigger] r@[j] == deferred(nodes@, j),
                found == (nodes@[i as int].kind == Kind::Ca || exists|l: int|
                    #![trigger nodes@[i as int].deps@[l]]
                    0 <= l < k && nodes@[i as int].deps@[l].0 < i && deferred(
                        nodes@,
                        nodes@[i as int].deps@[l].0 as int,
                    )),
            decreases m - k,
        {
            let (j, _output) = nodes[i].deps[k];
            if r[j] {
                found = true;
            }
            assert(nodes@[i as int].deps@[k as int].0 == j);
            k += 1;
        }
        r.push(found);
        i += 1;
    }
    r
}

/// The kind of node `i` and what it depends on are what the source hands out
/// between the states `was` and `now`.
pub open spec fn node_drawn<D>(
    number: spec_fn(D, usize, D, usize) -> bool,
    choice: spec_fn(D, u8, D, bool) -> bool,
    was: D,
    now: D,
    nodes: Seq<Node>,
    i: int,
) -> bool {
    exists|mid: D, k: usize|
        {
            &&& #[trigger] number_drawn(number, was, KIND_DRAWS, mid, k)
            &&& nodes[i].kind == drawn_kind(k as int)
            &&& deps_drawn(choice, mid, now, nodes, nodes[i].kind, nodes[i].deps@, i)
        }
}

/// The nodes are drawn one after the other.
pub open spec fn nodes_drawn<D>(
    number: spec_fn(D, usize, D, usize) -> bool,
    choice: spec_fn(D, u8, D, bool) -> bool,
    was: D,
    now: D,
    nodes: Seq<Node>,
) -> bool {
    exists|states: Seq<D>|
        {
            &&& #[trigger] leads(states, nodes.len() as int, was, now)
            &&& forall|i: int|
                #![trigger nodes[i]]
                0 <= i < nodes.len() ==> node_drawn(
                    number,
                    choice,
                    states[i],
                    states[i + 1],
                    nodes,
                    i,
                )
        }
}

/// The store is what the source hands out between the states `was` and `now`,
/// and nothing else is asked of it: the number of nodes, then the nodes, then
/// their roots.
pub open spec fn store_drawn<D>(
    number: spec_fn(D, usize, D, usize) -> bool,
    choice: spec_fn(D, u8, D, bool) -> bool,
    was: D,
    now: D,
    nodes: Seq<Node>,
    keep_outputs: bool,
) -> bool {
    exists|s: Seq<D>, extra: usize|
        {
            &&& #[trigger] leads(s, 3, was, now)
            &&& #[trigger] number_drawn(number, s[0], 11, s[1], extra)
            &&& nodes.len() == 6 + extra
            &&& nodes_drawn(number, choice, s[1], s[2], nodes)
            &&& roots_drawn(choice, s[2], s[3], nodes, keep_outputs)
        }
}

/// Draw a store. The number of paths is drawn first, then their kinds and what
/// they depend on, then the roots.
pub fn gen_graph<D: Draws>(draws: &mut D, keep_outputs: bool) -> (nodes: Vec<Node>)
    ensures
        is_random_store(nodes@, keep_outputs),
        store_drawn(
            |was: D, n: usize, now: D, d: usize|
                exists|source: &mut D| #[trigger]
                    call_ensures(D::below, (source, n), d) && *source == was && *final(source)
                        == now,
            |was: D, percent: u8, now: D, b: bool|
                exists|source: &mut D| #[trigger]
                    call_ensures(D::chance, (source, percent), b) && *source == was && *final(source)
                        == now,
            *old(draws),
            *final(draws),
            nodes@,
            keep_outputs,
        ),
{
    let ghost number = |was: D, n: usize, now: D, d: usize|
        exists|source: &mut D| #[trigger]
            call_ensures(D::below, (source, n), d) && *source == was && *final(source)
                == now;
    let ghost choice = |was: D, percent: u8, now: D, b: bool|
        exists|source: &mut D| #[trigger]
            call_ensures(D::chance, (source, percent), b) && *source == was && *final(source)
                == now;
    let ghost start = *draws;
    let extra: usize = draw_below(draws, 11);
    let n: usize = 6 + extra;
    let ghost counted = *draws;
    let ghost mut states = seq![counted];
    let mut nodes: Vec<Node> = Vec::new();
    let mut i: usize = 0;
    while i < n
        invariant
            n <= 16,
            number == (|was: D, n: usize, now: D, d: usize|
                exists|source: &mut D| #[trigger]
                    call_ensures(D::below, (source, n), d) && *source == was && *final(source)
                        == now),
            choice == (|was: D, percent: u8, now: D, b: bool|
                exists|source: &mut D| #[trigger]
                    call_ensures(D::chance, (source, percent), b) && *source == was && *final(source)
                        == now),
            leads(states, i as int, counted, *draws),
            forall|j: int|
                #![trigger nodes@[j]]
                0 <= j < i ==> node_drawn(number, choice, states[j], states[j + 1], nodes@, j),
            i <= n,
            nodes@.len() == i,
            forall|j: int|
                0 <= j < i ==> {
                    &&& (#[trigger] nodes@[j]).name@ == node_name(j)
                    &&& deps_fit(nodes@, j)
                    &&& nodes@[j].root_output is None
                    &&& !nodes@[j].root_drv
                },
        decreases n - i,
    {
        let ghost before = *draws;
        let k: usize = draw_below(draws, KIND_DRAWS);
        let ghost mid = *draws;
        let kind = kind_of_draw(k);
        let deps = draw_deps(draws, &nodes, kind);
        let mut name = "n".to_owned();
        proof {
            reveal_strlit("n");
            assert("n"@ =~= seq!['n']);
        }
        numbers::push_decimal(&mut name, i as u64);
        let ghost was = nodes@;
        nodes.push(Node { name, kind, deps, root_output: None, root_drv: false });
        proof {
            assert forall|j: int| 0 <= j < i + 1 implies {
                &&& (#[trigger] nodes@[j]).name@ == node_name(j)
                &&& deps_fit(nodes@, j)
                &&& nodes@[j].root_output is None
                &&& !nodes@[j].root_drv
            } by {
                if j < i {
                    assert(nodes@[j] == was[j]);
                    lemma_deps_fit_kept(was, nodes@, j);
                }
            }
            let earlier = states;
            states = states.push(*draws);
            assert forall|j: int|
                #![trigger nodes@[j]]
                0 <= j < i + 1 implies node_drawn(number, choice, states[j], states[j + 1], nodes@, j) by {
                if j < i {
                    assert(nodes@[j] == was[j]);
                    assert(states[j] == earlier[j] && states[j + 1] == earlier[j + 1]);
                    lemma_node_drawn_kept(number, choice, states[j], states[j + 1], was, nodes@, j);
                } else {
                    assert(number_drawn(number, before, KIND_DRAWS, mid, k));
                    lemma_deps_drawn_kept(choice, mid, *draws, was, nodes@, kind, nodes@[i as int].deps@, j);
                }
            }
        }
        i += 1;
    }
    let ghost built = *draws;
    let ghost shape = nodes@;
    let r = draw_roots(draws, nodes, keep_outputs);
    proof {
        assert forall|j: int|
            #![trigger r@[j]]
            0 <= j < r@.len() implies node_drawn(number, choice, states[j], states[j + 1], r@, j) by {
            assert(node_drawn(number, choice, states[j], states[j + 1], shape, j)) by {
                assert(shape[j].kind == r@[j].kind);
            }
            lemma_node_drawn_kept(number, choice, states[j], states[j + 1], shape, r@, j);
        }
        assert(leads(states, r@.len() as int, counted, built));
        assert(leads(seq![start, counted, built, *draws], 3, start, *draws));
        let s = seq![start, counted, built, *draws];
        assert(number_drawn(number, s[0], 11, s[1], extra));
    }
    r
}

/// The nodes have the same names, kinds and dependencies.
spec fn same_shape(a: Seq<Node>, b: Seq<Node>) -> bool {
    a.len() <= b.len() && forall|i: int|
        0 <= i < a.len() ==> {
            &&& (#[trigger] a[i]).name@ == b[i].name@
            &&& a[i].kind == b[i].kind
            &&& a[i].deps@ == b[i].deps@
        }
}

proof fn lemma_deps_fit_kept(was: Seq<Node>, now: Seq<Node>, i: int)
    requires
        same_shape(was, now),
        0 <= i < was.len(),
        deps_fit(was, i),
    ensures
        deps_fit(now, i),
{
    assert(was[i].deps@ == now[i].deps@);
    assert forall|k: int| 0 <= k < now[i].deps@.len() implies {
        let (j, output) = #[trigger] now[i].deps@[k];
        &&& j < i
        &&& may_depend(now[i].kind, now[j as int].kind)
        &&& output == Output::Dev ==> now[j as int].kind == Kind::Multi
    } by {
        let (j, output) = was[i].deps@[k];
        assert(was[j as int].kind == now[j as int].kind);
    }
}

proof fn lemma_chosen_deps_kept(
    was: Seq<Node>,
    now: Seq<Node>,
    kind: Kind,
    takes: Seq<bool>,
    devs: Seq<bool>,
    n: int,
)
    requires
        same_shape(was, now),
        n <= was.len(),
    ensures
        chosen_deps(was, kind, takes, devs, n) == chosen_deps(now, kind, takes, devs, n),
    decreases n,
{
    if n > 0 {
        lemma_chosen_deps_kept(was, now, kind, takes, devs, n - 1);
        assert(was[n - 1].kind == now[n - 1].kind);
    }
}

proof fn lemma_deps_drawn_kept<D>(
    choice: spec_fn(D, u8, D, bool) -> bool,
    from: D,
    to: D,
    was: Seq<Node>,
    now: Seq<Node>,
    kind: Kind,
    deps: Seq<(usize, Output)>,
    n: int,
)
    requires
        same_shape(was, now),
        n <= was.len(),
        deps_drawn(choice, from, to, was, kind, deps, n),
    ensures
        deps_drawn(choice, from, to, now, kind, deps, n),
{
    let (states, takes, devs) = choose|states: Seq<D>, takes: Seq<bool>, devs: Seq<bool>|
        {
            &&& #[trigger] leads(states, n, from, to)
            &&& takes.len() == n
            &&& devs.len() == n
            &&& deps == #[trigger] chosen_deps(was, kind, takes, devs, n)
            &&& forall|j: int|
                #![trigger was[j]]
                0 <= j < n ==> dep_drawn(
                    choice,
                    states[j],
                    states[j + 1],
                    kind,
                    was[j].kind,
                    takes[j],
                    devs[j],
                )
        };
    lemma_chosen_deps_kept(was, now, kind, takes, devs, n);
    assert forall|j: int|
        #![trigger now[j]]
        0 <= j < n implies dep_drawn(
        choice,
        states[j],
        states[j + 1],
        kind,
        now[j].kind,
        takes[j],
        devs[j],
    ) by {
        assert(was[j].kind == now[j].kind);
    }
    assert(leads(states, n, from, to));
}

proof fn lemma_node_drawn_kept<D>(
    number: spec_fn(D, usize, D, usize) -> bool,
    choice: spec_fn(D, u8, D, bool) -> bool,
    from: D,
    to: D,
    was: Seq<Node>,
    now: Seq<Node>,
    i: int,
)
    requires
        same_shape(was, now),
        0 <= i < was.len(),
        node_drawn(number, choice, from, to, was, i),
    ensures
        node_drawn(number, choice, from, to, now, i),
{
    let (mid, k) = choose|mid: D, k: usize|
        {
            &&& #[trigger] number_drawn(number, from, KIND_DRAWS, mid, k)
            &&& was[i].kind == drawn_kind(k as int)
            &&& deps_drawn(choice, mid, to, was, was[i].kind, was[i].deps@, i)
        };
    assert(was[i].kind == now[i].kind && was[i].deps@ == now[i].deps@);
    lemma_deps_drawn_kept(choice, mid, to, was, now, was[i].kind, was[i].deps@, i);
    assert(number_drawn(number, from, KIND_DRAWS, mid, k));
}

proof fn lemma_deferred_kept(was: Seq<Node>, now: Seq<Node>, i: int)
    requires
        same_shape(was, now),
        0 <= i < was.len(),
    ensures
        deferred(was, i) == deferred(now, i),
    decreases i,
{
    assert(was[i].deps@ == now[i].deps@);
    if deferred(was, i) && was[i].kind != Kind::Ca {
        let k = choose|k: int|
            #![trigger was[i].deps@[k]]
            0 <= k < was[i].deps@.len() && was[i].deps@[k].0 < i && deferred(
                was,
                was[i].deps@[k].0 as int,
            );
        lemma_deferred_kept(was, now, was[i].deps@[k].0 as int);
        assert(now[i].deps@[k].0 < i);
    }
    if deferred(now, i) && now[i].kind != Kind::Ca {
        let k = choose|k: int|
            #![trigger now[i].deps@[k]]
            0 <= k < now[i].deps@.len() && now[i].deps@[k].0 < i && deferred(
                now,
                now[i].deps@[k].0 as int,
            );
        lemma_deferred_kept(was, now, now[i].deps@[k].0 as int);
        assert(was[i].deps@[k].0 < i);
    }
}

/// The roots at `node` are what the source hands out between the states `was`
/// and `now`: whether it has one, by which of two outputs, and whether its
/// derivation is one. Only choices that the node leaves open are drawn.
pub open spec fn root_drawn<D>(
    choice: spec_fn(D, u8, D, bool) -> bool,
    was: D,
    now: D,
    node: Node,
    keep_outputs: bool,
    is_deferred: bool,
) -> bool {
    let rooted = node.root_output is Some;
    let dev = node.root_output == Some(Output::Dev);
    let drv_open = drv_may_be_root(node.kind, keep_outputs, is_deferred);
    exists|s: Seq<D>|
        {
            &&& #[trigger] leads(s, 3, was, now)
            &&& drawn_if(choice, node.kind != Kind::Impure, s[0], 30, s[1], rooted)
            &&& drawn_if(choice, rooted && node.kind == Kind::Multi, s[1], 50, s[2], dev)
            &&& drawn_if(choice, drv_open, s[2], 10, s[3], node.root_drv)
        }
}

/// The roots of the nodes are drawn one node after the other.
pub open spec fn roots_drawn<D>(
    choice: spec_fn(D, u8, D, bool) -> bool,
    was: D,
    now: D,
    nodes: Seq<Node>,
    keep_outputs: bool,
) -> bool {
    exists|states: Seq<D>|
        {
            &&& #[trigger] leads(states, nodes.len() as int, was, now)
            &&& forall|i: int|
                #![trigger nodes[i]]
                0 <= i < nodes.len() ==> root_drawn(
                    choice,
                    states[i],
                    states[i + 1],
                    nodes[i],
                    keep_outputs,
                    deferred(nodes, i),
                )
        }
}

/// Draw the roots.
fn draw_roots<D: Draws>(draws: &mut D, nodes: Vec<Node>, keep_outputs: bool) -> (r: Vec<Node>)
    requires
        6 <= nodes@.len() <= 16,
        forall|j: int|
            0 <= j < nodes@.len() ==> {
                &&& (#[trigger] nodes@[j]).name@ == node_name(j)
                &&& deps_fit(nodes@, j)
                &&& nodes@[j].root_output is None
                &&& !nodes@[j].root_drv
            },
    ensures
        is_random_store(r@, keep_outputs),
        r@.len() == nodes@.len(),
        same_shape(nodes@, r@),
        roots_drawn(
            |was: D, percent: u8, now: D, b: bool|
                exists|source: &mut D| #[trigger]
                    call_ensures(D::chance, (source, percent), b) && *source == was && *final(source)
                        == now,
            *old(draws),
            *final(draws),
            r@,
            keep_outputs,
        ),
{
    let ghost choice = |was: D, percent: u8, now: D, b: bool|
        exists|source: &mut D| #[trigger]
            call_ensures(D::chance, (source, percent), b) && *source == was && *final(source)
                == now;
    let deferred_now = deferred_nodes(&nodes);
    let mut r = nodes;
    let n: usize = r.len();
    let ghost first = r@;
    let ghost start = *draws;
    let ghost mut states = seq![start];
    let mut i: usize = 0;
    while i < n
        invariant
            choice == (|was: D, percent: u8, now: D, b: bool|
                exists|source: &mut D| #[trigger]
                    call_ensures(D::chance, (source, percent), b) && *source == was && *final(source)
                        == now),
            leads(states, i as int, start, *draws),
            forall|j: int|
                #![trigger r@[j]]
                0 <= j < i ==> root_drawn(
                    choice,
                    states[j],
                    states[j + 1],
                    r@[j],
                    keep_outputs,
                    deferred(first, j),
                ),
            n == first.len(),
            n == r@.len(),
            i <= n,
            deferred_now@.len() == n,
            forall|j: int| 0 <= j < n ==> #[trigger] deferred_now@[j] == deferred(first, j),
            same_shape(first, r@),
            forall|j: int| 0 <= j < i ==> #[trigger] roots_fit_like(r@, first, j, keep_outputs),
            forall|j: int|
                i <= j < n ==> (#[trigger] r@[j]).root_output is None && !r@[j].root_drv,
        decreases n - i,
    {
        let ghost was = r@;
        let kind = r[i].kind;
        let rooted = draw_if(draws, kind != Kind::Impure, 30);
        let ghost mid = *draws;
        let dev = draw_if(draws, rooted && kind == Kind::Multi, 50);
        let ghost low = *draws;
        let output = root_of_draws(kind, rooted, dev);
        let drv_open = may_root_drv(kind, keep_outputs, deferred_now[i]);
        let drv = draw_if(draws, drv_open, 10);
        let name = r[i].name.clone();
        let deps = copy_deps(&r[i].deps);
        r.set(i, Node { name, kind, deps, root_output: output, root_drv: drv });
        let ghost earlier = states;
        proof {
            states = states.push(*draws);
            assert(leads(seq![earlier[i as int], mid, low, *draws], 3, earlier[i as int], *draws));
            assert(deferred_now@[i as int] == deferred(first, i as int));
            assert forall|j: int|
                #![trigger r@[j]]
                0 <= j < i + 1 implies root_drawn(
                choice,
                states[j],
                states[j + 1],
                r@[j],
                keep_outputs,
                deferred(first, j),
            ) by {
                if j < i {
                    assert(r@[j] == was[j]);
                    assert(states[j] == earlier[j] && states[j + 1] == earlier[j + 1]);
                }
            }
            assert forall|j: int| 0 <= j < i + 1 implies #[trigger] roots_fit_like(
                r@,
                first,
                j,
                keep_outputs,
            ) by {
                if j < i {
                    assert(roots_fit_like(was, first, j, keep_outputs));
                    assert(r@[j] == was[j]);
                } else {
                    assert(deferred_now@[i as int] == deferred(first, i as int));
                    assert(was[i as int].root_output is None);
                }
            }
            assert(same_shape(first, r@)) by {
                assert forall|j: int| 0 <= j < n implies {
                    &&& (#[trigger] first[j]).name@ == r@[j].name@
                    &&& first[j].kind == r@[j].kind
                    &&& first[j].deps@ == r@[j].deps@
                } by {
                    if j != i {
                        assert(r@[j] == was[j]);
                    }
                }
            }
        }
        i += 1;
    }
    proof {
        assert forall|j: int| 0 <= j < r@.len() implies {
            &&& (#[trigger] r@[j]).name@ == node_name(j)
            &&& deps_fit(r@, j)
            &&& roots_fit(r@, j, keep_outputs)
        } by {
            assert(first[j].name@ == r@[j].name@);
            lemma_deps_fit_kept(first, r@, j);
            lemma_deferred_kept(first, r@, j);
            assert(roots_fit_like(r@, first, j, keep_outputs));
        }
        assert forall|j: int|
            #![trigger r@[j]]
            0 <= j < r@.len() implies root_drawn(
            choice,
            states[j],
            states[j + 1],
            r@[j],
            keep_outputs,
            deferred(r@, j),
        ) by {
            lemma_deferred_kept(first, r@, j);
        }
        assert(leads(states, r@.len() as int, start, *draws));
    }
    r
}

/// The roots at a node fit, where deferral is judged by `first`.
spec fn roots_fit_like(nodes: Seq<Node>, first: Seq<Node>, i: int, keep_outputs: bool) -> bool {
    let node = nodes[i];
    &&& node.kind == Kind::Impure ==> node.root_output is None && !node.root_drv
    &&& node.root_output == Some(Output::Dev) ==> node.kind == Kind::Multi
    &&& node.root_drv ==> !at_eval(node.kind) && !(keep_outputs && deferred(first, i))
}

fn copy_deps(deps: &Vec<(usize, Output)>) -> (r: Vec<(usize, Output)>)
    ensures
        r@ == deps@,
{
    let mut r: Vec<(usize, Output)> = Vec::new();
    let n: usize = deps.len();
    let mut i: usize = 0;
    while i < n
        invariant
            n == deps@.len(),
            i <= n,
            r@ == deps@.take(i as int),
        decreases n - i,
    {
        r.push(deps[i]);
        assert(deps@.take(i + 1) =~= deps@.take(i as int).push(deps@[i as int]));
        i += 1;
    }
    assert(deps@.take(n as int) =~= deps@);
    r
}

/// Every kind has a draw: a plain path three of the ten, each other kind one.
pub proof fn law_every_kind_is_drawn(kind: Kind, j: int, k: int)
    ensures
        exists|d: int| 0 <= d < 10 && #[trigger] drawn_kind(d) == kind,
        0 <= j < k < 10 && drawn_kind(j) == drawn_kind(k) ==> drawn_kind(j) == Kind::Plain && k < 3,
        0 <= j < 3 ==> drawn_kind(j) == Kind::Plain,
        KIND_DRAWS == 10,
{
    assert(drawn_kind(0) == Kind::Plain);
    assert(drawn_kind(3) == Kind::Multi);
    assert(drawn_kind(4) == Kind::Fod);
    assert(drawn_kind(5) == Kind::FodRec);
    assert(drawn_kind(6) == Kind::Ca);
    assert(drawn_kind(7) == Kind::Text);
    assert(drawn_kind(8) == Kind::Src);
    assert(drawn_kind(9) == Kind::Impure);
}

/// Texts and sources depend on nothing, an impure path neither depends on
/// anything nor is depended on, a fixed output depends on no text or source, and
/// everything else may depend on everything else.
pub proof fn law_who_may_depend_on_whom(kind: Kind, dep: Kind)
    ensures
        kind == Kind::Text || kind == Kind::Src || kind == Kind::Impure || dep == Kind::Impure
            ==> !may_depend(kind, dep),
        (kind == Kind::Fod || kind == Kind::FodRec) && (dep == Kind::Text || dep == Kind::Src)
            ==> !may_depend(kind, dep),
        (kind == Kind::Plain || kind == Kind::Multi || kind == Kind::Ca) && dep != Kind::Impure
            ==> may_depend(kind, dep),
        (kind == Kind::Fod || kind == Kind::FodRec) && dep != Kind::Impure && dep != Kind::Text
            && dep != Kind::Src ==> may_depend(kind, dep),
{
}

/// A node depends on exactly those earlier ones that it may depend on and that
/// the draw takes, and on the second output only of one that has two.
pub proof fn law_drawn_dependencies(
    nodes: Seq<Node>,
    kind: Kind,
    takes: Seq<bool>,
    devs: Seq<bool>,
    n: int,
    j: usize,
    output: Output,
)
    requires
        0 <= n <= nodes.len(),
        n <= usize::MAX,
    ensures
        chosen_deps(nodes, kind, takes, devs, n).contains((j, output)) <==> {
            &&& j < n
            &&& may_depend(kind, nodes[j as int].kind)
            &&& takes[j as int]
            &&& output == Output::Dev <==> nodes[j as int].kind == Kind::Multi && devs[j as int]
        },
    decreases n,
{
    if n > 0 {
        law_drawn_dependencies(nodes, kind, takes, devs, n - 1, j, output);
        let rest = chosen_deps(nodes, kind, takes, devs, n - 1);
        let all = chosen_deps(nodes, kind, takes, devs, n);
        if all.contains((j, output)) {
            let k = choose|k: int| 0 <= k < all.len() && all[k] == (j, output);
            if k < rest.len() {
                assert(rest[k] == (j, output));
            }
        }
        if rest.contains((j, output)) {
            let k = choose|k: int| 0 <= k < rest.len() && rest[k] == (j, output);
            assert(all[k] == (j, output));
        }
        if j == n - 1 && may_depend(kind, nodes[n - 1].kind) && takes[n - 1] {
            assert(all[rest.len() as int].0 == j);
            if output == chosen_output(nodes[n - 1].kind, devs[n - 1]) {
                assert(all[rest.len() as int] == (j, output));
            }
        }
    }
}

/// Content-addressed outputs are deferred, and so are those of whatever depends
/// on a deferred node, and no others.
pub proof fn law_deferral_is_passed_on(nodes: Seq<Node>, i: int, k: int)
    requires
        0 <= i < nodes.len(),
        0 <= k < nodes[i].deps@.len(),
        deps_fit(nodes, i),
    ensures
        nodes[i].kind == Kind::Ca ==> deferred(nodes, i),
        deferred(nodes, nodes[i].deps@[k].0 as int) ==> deferred(nodes, i),
        nodes[i].kind != Kind::Ca && (forall|l: int|
            0 <= l < nodes[i].deps@.len() ==> !deferred(
                nodes,
                (#[trigger] nodes[i].deps@[l]).0 as int,
            )) ==> !deferred(nodes, i),
{
    assert(nodes[i].deps@[k].0 < i);
}

/// The derivation of a path is no root if the path is impure or has no
/// derivation, nor if its outputs are deferred while outputs are kept. Any other
/// may be.
pub proof fn law_which_derivations_may_be_roots(kind: Kind, keep_outputs: bool, is_deferred: bool)
    ensures
        kind == Kind::Text || kind == Kind::Src || kind == Kind::Impure ==> !drv_may_be_root(
            kind,
            keep_outputs,
            is_deferred,
        ),
        keep_outputs && is_deferred ==> !drv_may_be_root(kind, keep_outputs, is_deferred),
        kind != Kind::Text && kind != Kind::Src && kind != Kind::Impure && !(keep_outputs
            && is_deferred) ==> drv_may_be_root(kind, keep_outputs, is_deferred),
{
}

/// The names of the nodes differ.
pub proof fn law_node_names_differ(i: int, j: int)
    requires
        0 <= i <= u64::MAX,
        0 <= j <= u64::MAX,
    ensures
        node_name(i) == node_name(j) ==> i == j,
        node_name(i)[0] == 'n',
{
    numbers::law_decimal_reads_back(i as u64);
    numbers::law_decimal_reads_back(j as u64);
    assert(node_name(i).skip(1) =~= numbers::decimal(i));
    assert(node_name(j).skip(1) =~= numbers::decimal(j));
}

/// A random store has 6 to 16 paths, none of which depends on itself or a later
/// one, and its roots are ones that every collector treats alike.
pub proof fn law_random_stores_can_be_compared(
    nodes: Seq<Node>,
    keep_outputs: bool,
    i: int,
    k: int,
)
    requires
        is_random_store(nodes, keep_outputs),
        0 <= i < nodes.len(),
    ensures
        6 <= nodes.len() <= 16,
        0 <= k < nodes[i].deps@.len() ==> {
            let (j, output) = nodes[i].deps@[k];
            &&& j < i
            &&& nodes[j as int].kind != Kind::Impure
            &&& output == Output::Dev ==> nodes[j as int].kind == Kind::Multi
        },
        nodes[i].kind == Kind::Text || nodes[i].kind == Kind::Src || nodes[i].kind == Kind::Impure
            ==> nodes[i].deps@.len() == 0 && !nodes[i].root_drv,
        nodes[i].kind == Kind::Impure ==> nodes[i].root_output is None,
        nodes[i].root_output == Some(Output::Dev) ==> nodes[i].kind == Kind::Multi,
        keep_outputs && nodes[i].kind == Kind::Ca ==> !nodes[i].root_drv,
        keep_outputs && 0 <= k < nodes[i].deps@.len() && deferred(
            nodes,
            nodes[i].deps@[k].0 as int,
        ) ==> !nodes[i].root_drv,
{
    assert(nodes[i].name@ == node_name(i));
    assert(deps_fit(nodes, i) && roots_fit(nodes, i, keep_outputs));
    if nodes[i].deps@.len() > 0 {
        let first = nodes[i].deps@[0];
        assert(may_depend(nodes[i].kind, nodes[first.0 as int].kind));
    }
    if 0 <= k < nodes[i].deps@.len() {
        let dep = nodes[i].deps@[k];
        assert(dep.0 < i);
    }
}

} // verus!
