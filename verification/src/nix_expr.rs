//! The expression and the settings that build a random store.
use crate::random_store;
use crate::random_store::Kind;
use crate::random_store::Node;
use crate::random_store::Output;
use crate::text;
use vstd::prelude::*;

verus! {

/// How a node is referred to: by name, its second output as an attribute.
pub open spec fn reference(name: Seq<char>, output: Output) -> Seq<char> {
    match output {
        Output::Out => name,
        Output::Dev => "("@ + name + ".dev)"@,
    }
}

/// The references to dependencies, with blanks between them.
pub open spec fn references(nodes: Seq<Node>, deps: Seq<(usize, Output)>) -> Seq<char>
    decreases deps.len(),
{
    if deps.len() == 0 {
        Seq::empty()
    } else {
        let last = reference(nodes[deps.last().0 as int].name@, deps.last().1);
        if deps.len() == 1 {
            last
        } else {
            references(nodes, deps.drop_last()) + " "@ + last
        }
    }
}

/// The dependencies of a node as the expression lists them.
pub fn dep_list(nodes: &[Node], node: &Node) -> (r: String)
    requires
        deps_below(nodes@, *node),
    ensures
        r@ == references(nodes@, node.deps@),
{
    let mut r = String::new();
    let n: usize = node.deps.len();
    let mut k: usize = 0;
    assert(r@ =~= Seq::<char>::empty());
    while k < n
        invariant
            n == node.deps@.len(),
            k <= n,
            deps_below(nodes@, *node),
            r@ == references(nodes@, node.deps@.take(k as int)),
        decreases n - k,
    {
        let ghost upto = node.deps@.take(k + 1);
        proof {
            assert(upto.drop_last() =~= node.deps@.take(k as int));
            assert(upto.last() == node.deps@[k as int]);
        }
        if k > 0 {
            r.append(" ");
        }
        let ghost before = r@;
        let (j, output) = node.deps[k];
        match output {
            Output::Out => {
                r.append(nodes[j].name.as_str());
            },
            Output::Dev => {
                r.append("(");
                r.append(nodes[j].name.as_str());
                r.append(".dev)");
            },
        }
        assert(r@ =~= before + reference(nodes@[j as int].name@, output));
        assert(r@ =~= references(nodes@, upto));
        k += 1;
    }
    assert(node.deps@.take(n as int) =~= node.deps@);
    r
}

/// The attribute that defines a path.
pub open spec fn definition(
    name: Seq<char>,
    kind: Kind,
    deps: Seq<char>,
    src_dir: Seq<char>,
) -> Seq<char> {
    match kind {
        Kind::Plain => name + " = mk \""@ + name + "\" { deps = [ "@ + deps + " ]; };"@,
        Kind::Ca => name + " = mk \""@ + name + "\" { deps = [ "@ + deps
            + " ]; __contentAddressed = true; outputHashMode = \"recursive\"; outputHashAlgo = \"sha256\"; };"@,
        Kind::Multi => name + " = derivation {\n    name = \""@ + name
            + "\";\n    inherit system;\n    builder = sh;\n    args = [ \"-c\" \"echo $name-out > $out; echo $name-dev > $dev; for d in $deps; do echo dep $d >> $out; echo dep $d >> $dev; done\" ];\n    deps = [ "@
            + deps + " ];\n    outputs = [ \"out\" \"dev\" ];\n  };"@,
        Kind::Fod => name + " = derivation { name = \""@ + name
            + "\"; inherit system; builder = sh; args = [ \"-c\" \": > $out\" ]; deps = [ "@ + deps
            + " ]; outputHashMode = \"flat\"; outputHashAlgo = \"sha256\"; outputHash = \"sha256-47DEQpj8HBSa+/TImW+5JCeuQeRkm5NMpJWZG3hSuFU=\"; };"@,
        Kind::FodRec => name + " = derivation { name = \""@ + name
            + "\"; inherit system; builder = sh; args = [ \"-c\" \"echo hi > $out\" ]; deps = [ "@
            + deps
            + " ]; outputHashMode = \"recursive\"; outputHashAlgo = \"sha256\"; outputHash = \"sha256-EFUdrtf6Rn0LWIJufrmg8q99aT3jGfLvd1//zaJEufY=\"; };"@,
        Kind::Text => name + " = builtins.toFile \""@ + name + "\" \"text "@ + name + "\\n\";"@,
        Kind::Src => name + " = builtins.path { path = "@ + src_dir + "; name = \""@ + name
            + "\"; };"@,
        Kind::Impure => name + " = derivation { name = \""@ + name
            + "\"; inherit system; builder = sh; args = [ \"-c\" \"echo impure-"@ + name
            + " > $out\" ]; __impure = true; };"@,
    }
}

/// Append the attribute that defines a path. Fixed outputs hold nothing, or
/// `hi`; different names still give different paths.
fn push_definition(body: &mut String, name: &str, kind: Kind, deps: &str, src_dir: &str)
    ensures
        final(body)@ == old(body)@ + definition(name@, kind, deps@, src_dir@),
{
    let ghost before = body@;
    let mut r = name.to_owned();
    match kind {
        Kind::Plain => {
            r.append(" = mk \"");
            r.append(name);
            r.append("\" { deps = [ ");
            r.append(deps);
            r.append(" ]; };");
        },
        Kind::Ca => {
            r.append(" = mk \"");
            r.append(name);
            r.append("\" { deps = [ ");
            r.append(deps);
            r.append(
                " ]; __contentAddressed = true; outputHashMode = \"recursive\"; outputHashAlgo = \"sha256\"; };",
            );
        },
        Kind::Multi => {
            r.append(" = derivation {\n    name = \"");
            r.append(name);
            r.append(
                "\";\n    inherit system;\n    builder = sh;\n    args = [ \"-c\" \"echo $name-out > $out; echo $name-dev > $dev; for d in $deps; do echo dep $d >> $out; echo dep $d >> $dev; done\" ];\n    deps = [ ",
            );
            r.append(deps);
            r.append(" ];\n    outputs = [ \"out\" \"dev\" ];\n  };");
        },
        Kind::Fod => {
            r.append(" = derivation { name = \"");
            r.append(name);
            r.append(
                "\"; inherit system; builder = sh; args = [ \"-c\" \": > $out\" ]; deps = [ ",
            );
            r.append(deps);
            r.append(
                " ]; outputHashMode = \"flat\"; outputHashAlgo = \"sha256\"; outputHash = \"sha256-47DEQpj8HBSa+/TImW+5JCeuQeRkm5NMpJWZG3hSuFU=\"; };",
            );
        },
        Kind::FodRec => {
            r.append(" = derivation { name = \"");
            r.append(name);
            r.append(
                "\"; inherit system; builder = sh; args = [ \"-c\" \"echo hi > $out\" ]; deps = [ ",
            );
            r.append(deps);
            r.append(
                " ]; outputHashMode = \"recursive\"; outputHashAlgo = \"sha256\"; outputHash = \"sha256-EFUdrtf6Rn0LWIJufrmg8q99aT3jGfLvd1//zaJEufY=\"; };",
            );
        },
        Kind::Text => {
            r.append(" = builtins.toFile \"");
            r.append(name);
            r.append("\" \"text ");
            r.append(name);
            r.append("\\n\";");
        },
        Kind::Src => {
            r.append(" = builtins.path { path = ");
            r.append(src_dir);
            r.append("; name = \"");
            r.append(name);
            r.append("\"; };");
        },
        Kind::Impure => {
            r.append(" = derivation { name = \"");
            r.append(name);
            r.append(
                "\"; inherit system; builder = sh; args = [ \"-c\" \"echo impure-",
            );
            r.append(name);
            r.append(" > $out\" ]; __impure = true; };");
        },
    }
    assert(r@ =~= definition(name@, kind, deps@, src_dir@));
    body.append(r.as_str());
}

/// The definitions of the first `n` nodes, each indented and on its own line.
pub open spec fn definitions(nodes: Seq<Node>, src_dir: Seq<char>, n: int) -> Seq<char>
    decreases n,
{
    if n <= 0 {
        Seq::empty()
    } else {
        let node = nodes[n - 1];
        definitions(nodes, src_dir, n - 1) + "  "@ + definition(
            node.name@,
            node.kind,
            references(nodes, node.deps@),
            src_dir,
        ) + "\n"@
    }
}

/// What precedes the definitions: the builder that most of them share.
pub open spec fn prelude() -> Seq<char> {
    "let\n  system = builtins.currentSystem;\n  sh = \"/bin/sh\";\n  mk = name: extra: derivation ({\n    inherit name system;\n    builder = sh;\n    args = [ \"-c\" \"echo $name > $out; for d in $deps; do echo dep $d >> $out; done\" ];\n    deps = [];\n  } // extra);\nin rec {\n"@
}

/// What the node depends on is among `nodes`.
pub open spec fn deps_below(nodes: Seq<Node>, node: Node) -> bool {
    forall|k: int| 0 <= k < node.deps@.len() ==> (#[trigger] node.deps@[k]).0 < nodes.len()
}

/// The expression that builds the store. `src_dir` is the tree that source
/// paths are copied from.
pub fn render_expr(nodes: &[Node], src_dir: &str) -> (r: String)
    requires
        forall|i: int| 0 <= i < nodes@.len() ==> deps_below(nodes@, #[trigger] nodes@[i]),
    ensures
        r@ == prelude() + definitions(nodes@, src_dir@, nodes@.len() as int) + "}\n"@,
{
    let mut body = String::new();
    let n: usize = nodes.len();
    let mut i: usize = 0;
    assert(body@ =~= Seq::<char>::empty());
    while i < n
        invariant
            n == nodes@.len(),
            i <= n,
            forall|j: int| 0 <= j < nodes@.len() ==> deps_below(nodes@, #[trigger] nodes@[j]),
            body@ == definitions(nodes@, src_dir@, i as int),
        decreases n - i,
    {
        let node = &nodes[i];
        assert(deps_below(nodes@, nodes@[i as int]));
        let deps = dep_list(nodes, node);
        body.append("  ");
        push_definition(&mut body, node.name.as_str(), node.kind, deps.as_str(), src_dir);
        body.append("\n");
        i += 1;
    }
    let mut r = "let\n  system = builtins.currentSystem;\n  sh = \"/bin/sh\";\n  mk = name: extra: derivation ({\n    inherit name system;\n    builder = sh;\n    args = [ \"-c\" \"echo $name > $out; for d in $deps; do echo dep $d >> $out; done\" ];\n    deps = [];\n  } // extra);\nin rec {\n".to_owned();
    r.append(body.as_str());
    r.append("}\n");
    r
}

/// A truth value as settings show it.
pub open spec fn shown_bool(b: bool) -> Seq<char> {
    if b {
        "true"@
    } else {
        "false"@
    }
}

/// The settings for building and collecting the store.
pub fn nix_config(keep_outputs: bool, keep_derivations: bool) -> (r: String)
    ensures
        r@
            == "experimental-features = nix-command ca-derivations impure-derivations\nsandbox = false\nsubstituters =\nbuilders =\nmax-jobs = auto\nkeep-outputs = "@
            + shown_bool(keep_outputs) + "\nkeep-derivations = "@ + shown_bool(keep_derivations)
            + "\n"@,
{
    let mut r = "experimental-features = nix-command ca-derivations impure-derivations\nsandbox = false\nsubstituters =\nbuilders =\nmax-jobs = auto\nkeep-outputs = ".to_owned();
    if keep_outputs {
        r.append("true");
    } else {
        r.append("false");
    }
    r.append("\nkeep-derivations = ");
    if keep_derivations {
        r.append("true");
    } else {
        r.append("false");
    }
    r.append("\n");
    r
}

/// The store and its directories as one address.
pub fn store_uri(store_dir: &str, state_dir: &str, tmp: &str) -> (r: String)
    ensures
        r@ == "local?store="@ + store_dir@ + "&state="@ + state_dir@ + "&log="@ + tmp@
            + "/nix/var/log/nix"@,
{
    let mut r = "local?store=".to_owned();
    r.append(store_dir);
    r.append("&state=");
    r.append(state_dir);
    r.append("&log=");
    r.append(tmp);
    r.append("/nix/var/log/nix");
    r
}

/// The names of the nodes that have a derivation.
pub open spec fn derivation_names(nodes: Seq<Node>) -> Seq<Seq<char>>
    decreases nodes.len(),
{
    if nodes.len() == 0 {
        Seq::empty()
    } else {
        let rest = derivation_names(nodes.drop_last());
        if random_store::at_eval(nodes.last().kind) {
            rest
        } else {
            rest.push(nodes.last().name@)
        }
    }
}

/// The arguments that build all derivations of the store.
pub fn build_args(nodes: &[Node], exprs: &str) -> (r: Vec<String>)
    ensures
        r@.map_values(|s: String| s@) == seq!["build"@, "-f"@, exprs@] + derivation_names(nodes@)
            + seq!["--no-link"@],
{
    let mut r: Vec<String> = Vec::new();
    r.push("build".to_owned());
    r.push("-f".to_owned());
    r.push(exprs.to_owned());
    let ghost view = |s: String| s@;
    let n: usize = nodes.len();
    let mut i: usize = 0;
    assert(r@.map_values(view) =~= seq!["build"@, "-f"@, exprs@] + derivation_names(
        nodes@.take(0),
    ));
    while i < n
        invariant
            n == nodes@.len(),
            i <= n,
            view == |s: String| s@,
            r@.map_values(view) == seq!["build"@, "-f"@, exprs@] + derivation_names(
                nodes@.take(i as int),
            ),
        decreases n - i,
    {
        let ghost was = r@;
        assert(nodes@.take(i + 1).drop_last() =~= nodes@.take(i as int));
        if !nodes[i].kind.is_eval() {
            r.push(nodes[i].name.clone());
            assert(r@.map_values(view) =~= was.map_values(view).push(nodes@[i as int].name@));
        }
        assert(r@.map_values(view) =~= seq!["build"@, "-f"@, exprs@] + derivation_names(
            nodes@.take(i + 1),
        ));
        i += 1;
    }
    assert(nodes@.take(n as int) =~= nodes@);
    let ghost was = r@;
    r.push("--no-link".to_owned());
    assert(r@.map_values(view) =~= was.map_values(view).push("--no-link"@));
    r
}

/// How the target of a root is found.
#[derive(Clone, Copy, PartialEq, Eq, Structural)]
pub enum TargetQuery {
    /// Evaluate the attribute.
    Eval,
    /// Build the attribute and take the output path.
    Build,
}

/// A root to make: the attribute whose path it points to, and its name.
pub struct RootStep {
    pub query: TargetQuery,
    pub attr: String,
    pub link: String,
}

/// What a root to make holds.
pub struct RootPlan {
    pub query: TargetQuery,
    pub attr: Seq<char>,
    pub link: Seq<char>,
}

impl View for RootStep {
    type V = RootPlan;

    open spec fn view(&self) -> RootPlan {
        RootPlan { query: self.query, attr: self.attr@, link: self.link@ }
    }
}

/// The roots at a node: first its output, then its derivation.
pub open spec fn roots_at(node: Node) -> Seq<RootPlan> {
    let name = node.name@;
    let output = match node.root_output {
        None => Seq::empty(),
        Some(output) => seq![
            RootPlan {
                query: if random_store::at_eval(node.kind) {
                    TargetQuery::Eval
                } else {
                    TargetQuery::Build
                },
                attr: if random_store::at_eval(node.kind) || output == Output::Out {
                    name
                } else {
                    name + ".dev"@
                },
                link: name + "-"@ + random_store::output_name(output),
            },
        ],
    };
    let drv = if node.root_drv {
        seq![
            RootPlan { query: TargetQuery::Eval, attr: name + ".drvPath"@, link: name + "-drv"@ },
        ]
    } else {
        Seq::empty()
    };
    output + drv
}

/// The roots to make for a node.
pub fn root_steps(node: &Node) -> (r: Vec<RootStep>)
    ensures
        r@.map_values(|s: RootStep| s@) == roots_at(*node),
{
    let mut r: Vec<RootStep> = Vec::new();
    let name = node.name.as_str();
    match node.root_output {
        None => {},
        Some(output) => {
            let eval = node.kind.is_eval();
            let mut attr = name.to_owned();
            if !eval && output == Output::Dev {
                attr.append(".dev");
            }
            let mut link = name.to_owned();
            link.append("-");
            match output {
                Output::Out => {
                    link.append("out");
                },
                Output::Dev => {
                    link.append("dev");
                },
            }
            let query = if eval {
                TargetQuery::Eval
            } else {
                TargetQuery::Build
            };
            r.push(RootStep { query, attr, link });
        },
    }
    if node.root_drv {
        let mut attr = name.to_owned();
        attr.append(".drvPath");
        let mut link = name.to_owned();
        link.append("-drv");
        r.push(RootStep { query: TargetQuery::Eval, attr, link });
    }
    assert(r@.map_values(|s: RootStep| s@) =~= roots_at(*node));
    r
}

/// The references to two lists of dependencies stand one after the other, with
/// a blank between them.
pub proof fn law_references_stand_in_order(
    nodes: Seq<Node>,
    a: Seq<(usize, Output)>,
    b: Seq<(usize, Output)>,
)
    requires
        a.len() > 0,
        b.len() > 0,
    ensures
        references(nodes, a + b) == references(nodes, a) + seq![' '] + references(nodes, b),
    decreases b.len(),
{
    reveal_strlit(" ");
    assert(" "@ =~= seq![' ']);
    assert((a + b).drop_last() =~= a + b.drop_last());
    assert((a + b).last() == b.last());
    let last = reference(nodes[b.last().0 as int].name@, b.last().1);
    if b.len() == 1 {
        assert(a + b.drop_last() =~= a);
        assert(references(nodes, b) == last);
    } else {
        law_references_stand_in_order(nodes, a, b.drop_last());
        let x = references(nodes, a);
        let y = references(nodes, b.drop_last());
        assert(x + seq![' '] + y + seq![' '] + last =~= x + seq![' '] + (y + seq![' '] + last));
    }
}

/// Every node is defined, on a line of its own, with its name and what it
/// depends on.
pub proof fn law_every_node_is_defined(nodes: Seq<Node>, src_dir: Seq<char>, n: int, i: int)
    requires
        0 <= i < n <= nodes.len(),
    ensures
        exists|before: Seq<char>, after: Seq<char>|
            definitions(nodes, src_dir, n) == #[trigger] (before + definition(
                nodes[i].name@,
                nodes[i].kind,
                references(nodes, nodes[i].deps@),
                src_dir,
            ) + after) && after.len() > 0 && after[0] == '\n',
    decreases n,
{
    reveal_strlit("  ");
    reveal_strlit("\n");
    let d = definition(
        nodes[i].name@,
        nodes[i].kind,
        references(nodes, nodes[i].deps@),
        src_dir,
    );
    if i == n - 1 {
        let before = definitions(nodes, src_dir, n - 1) + "  "@;
        assert(definitions(nodes, src_dir, n) == before + d + "\n"@);
    } else {
        law_every_node_is_defined(nodes, src_dir, n - 1, i);
        let (before, after) = choose|before: Seq<char>, after: Seq<char>|
            definitions(nodes, src_dir, n - 1) == #[trigger] (before + d + after) && after.len() > 0
                && after[0] == '\n';
        let other = definition(
            nodes[n - 1].name@,
            nodes[n - 1].kind,
            references(nodes, nodes[n - 1].deps@),
            src_dir,
        );
        let longer = after + "  "@ + other + "\n"@;
        assert(definitions(nodes, src_dir, n) =~= before + d + longer);
        assert(longer[0] == '\n');
    }
}

/// The roots at a node are those that are asked for: one for the output, one for
/// the derivation, and no others. Only what is built is looked up by building.
pub proof fn law_roots_are_as_asked(node: Node)
    ensures
        roots_at(node).len() == (if node.root_output is Some {
            1int
        } else {
            0
        }) + (if node.root_drv {
            1int
        } else {
            0
        }),
        node.root_output == Some(Output::Out) ==> roots_at(node)[0].attr == node.name@
            && roots_at(node)[0].link == node.name@ + "-out"@,
        node.root_output == Some(Output::Dev) ==> roots_at(node)[0].link == node.name@ + "-dev"@,
        node.root_output == Some(Output::Dev) && node.kind == Kind::Multi ==> roots_at(node)[0].attr
            == node.name@ + ".dev"@,
        node.root_output is Some ==> (roots_at(node)[0].query == TargetQuery::Eval <==> node.kind
            == Kind::Text || node.kind == Kind::Src),
        node.root_drv ==> roots_at(node).last() == (RootPlan {
            query: TargetQuery::Eval,
            attr: node.name@ + ".drvPath"@,
            link: node.name@ + "-drv"@,
        }),
{
    reveal_strlit("-");
    reveal_strlit("out");
    reveal_strlit("dev");
    reveal_strlit("-out");
    reveal_strlit("-dev");
    assert("-"@ + "out"@ =~= "-out"@);
    assert("-"@ + "dev"@ =~= "-dev"@);
    assert(node.name@ + "-"@ + "out"@ =~= node.name@ + ("-"@ + "out"@));
    assert(node.name@ + "-"@ + "dev"@ =~= node.name@ + ("-"@ + "dev"@));
}

/// Exactly the nodes that have a derivation are built.
pub proof fn law_derivations_are_built(nodes: Seq<Node>, name: Seq<char>)
    ensures
        derivation_names(nodes).contains(name) <==> exists|i: int|
            0 <= i < nodes.len() && (#[trigger] nodes[i]).name@ == name && nodes[i].kind
                != Kind::Text && nodes[i].kind != Kind::Src,
    decreases nodes.len(),
{
    if nodes.len() > 0 {
        let init = nodes.drop_last();
        let rest = derivation_names(init);
        let all = derivation_names(nodes);
        law_derivations_are_built(init, name);
        if all.contains(name) {
            let k = choose|k: int| 0 <= k < all.len() && all[k] == name;
            if k < rest.len() {
                assert(rest[k] == name);
                let i = choose|i: int|
                    0 <= i < init.len() && (#[trigger] init[i]).name@ == name && init[i].kind
                        != Kind::Text && init[i].kind != Kind::Src;
                assert(nodes[i] == init[i]);
            } else {
                assert(nodes[nodes.len() - 1].name@ == name);
            }
        }
        if exists|i: int|
            0 <= i < nodes.len() && (#[trigger] nodes[i]).name@ == name && nodes[i].kind
                != Kind::Text && nodes[i].kind != Kind::Src {
            let i = choose|i: int|
                0 <= i < nodes.len() && (#[trigger] nodes[i]).name@ == name && nodes[i].kind
                    != Kind::Text && nodes[i].kind != Kind::Src;
            if i < init.len() {
                assert(init[i] == nodes[i]);
                let k = choose|k: int| 0 <= k < rest.len() && rest[k] == name;
                assert(all[k] == name);
            } else {
                assert(all[all.len() - 1] == name);
            }
        }
    }
}

/// The definition of a path begins with its name and holds what it depends on,
/// where paths of its kind depend on anything, and where it is copied from.
pub proof fn law_definitions_hold_names_and_dependencies(
    name: Seq<char>,
    kind: Kind,
    deps: Seq<char>,
    src_dir: Seq<char>,
)
    ensures
        text::starts_with(definition(name, kind, deps, src_dir), name),
        kind != Kind::Text && kind != Kind::Src && kind != Kind::Impure ==> exists|
            before: Seq<char>,
            after: Seq<char>,
        |
            definition(name, kind, deps, src_dir) == #[trigger] (before + deps + after)
                && before.len() > name.len(),
        kind == Kind::Src ==> exists|before: Seq<char>, after: Seq<char>|
            definition(name, kind, deps, src_dir) == #[trigger] (before + src_dir + after)
                && before.len() > name.len(),
{
    let d = definition(name, kind, deps, src_dir);
    assert(d.subrange(0, name.len() as int) =~= name);
    reveal_strlit(" = mk \"");
    reveal_strlit(" = derivation {\n    name = \"");
    reveal_strlit(" = derivation { name = \"");
    reveal_strlit(" = builtins.path { path = ");
    match kind {
        Kind::Plain => {
            let before = name + " = mk \""@ + name + "\" { deps = [ "@;
            assert(d == before + deps + " ]; };"@);
        },
        Kind::Ca => {
            let before = name + " = mk \""@ + name + "\" { deps = [ "@;
            let after =
                " ]; __contentAddressed = true; outputHashMode = \"recursive\"; outputHashAlgo = \"sha256\"; };"@;
            assert(d == before + deps + after);
        },
        Kind::Multi => {
            let before = name + " = derivation {\n    name = \""@ + name
                + "\";\n    inherit system;\n    builder = sh;\n    args = [ \"-c\" \"echo $name-out > $out; echo $name-dev > $dev; for d in $deps; do echo dep $d >> $out; echo dep $d >> $dev; done\" ];\n    deps = [ "@;
            let after = " ];\n    outputs = [ \"out\" \"dev\" ];\n  };"@;
            assert(d == before + deps + after);
        },
        Kind::Fod => {
            let before = name + " = derivation { name = \""@ + name
                + "\"; inherit system; builder = sh; args = [ \"-c\" \": > $out\" ]; deps = [ "@;
            let after =
                " ]; outputHashMode = \"flat\"; outputHashAlgo = \"sha256\"; outputHash = \"sha256-47DEQpj8HBSa+/TImW+5JCeuQeRkm5NMpJWZG3hSuFU=\"; };"@;
            assert(d == before + deps + after);
        },
        Kind::FodRec => {
            let before = name + " = derivation { name = \""@ + name
                + "\"; inherit system; builder = sh; args = [ \"-c\" \"echo hi > $out\" ]; deps = [ "@;
            let after =
                " ]; outputHashMode = \"recursive\"; outputHashAlgo = \"sha256\"; outputHash = \"sha256-EFUdrtf6Rn0LWIJufrmg8q99aT3jGfLvd1//zaJEufY=\"; };"@;
            assert(d == before + deps + after);
        },
        Kind::Src => {
            let before = name + " = builtins.path { path = "@;
            let after = "; name = \""@ + name + "\"; };"@;
            assert(d =~= before + src_dir + after);
        },
        Kind::Text => {},
        Kind::Impure => {},
    }
}

/// A path is referred to by its name, and its second output by an attribute of
/// it, in brackets.
pub proof fn law_second_outputs_are_attributes(name: Seq<char>)
    ensures
        reference(name, Output::Out) == name,
        reference(name, Output::Dev) == seq!['('] + name + ".dev"@ + seq![')'],
        reference(name, Output::Dev) != reference(name, Output::Out),
{
    reveal_strlit("(");
    reveal_strlit(".dev)");
    reveal_strlit(".dev");
    assert("("@ =~= seq!['(']);
    assert(".dev)"@ =~= ".dev"@ + seq![')']);
    assert("("@ + name + ".dev)"@ =~= seq!['('] + name + ".dev"@ + seq![')']);
    assert(reference(name, Output::Dev).len() > name.len());
}

} // verus!
