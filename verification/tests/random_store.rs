use fast_nix_gc::nix_expr::{
    build_args, dep_list, nix_config, render_expr, root_steps, store_uri, TargetQuery,
};
use fast_nix_gc::random_store::{
    can_depend, deps_of_draws, gen_graph, kind_of_draw, may_root_drv, root_of_draws, Draws, Kind,
    Node, Output, KIND_DRAWS,
};

/// A small generator of numbers.
struct Lcg(u64);

impl Draws for Lcg {
    fn below(&mut self, n: usize) -> usize {
        self.0 = self
            .0
            .wrapping_mul(6364136223846793005)
            .wrapping_add(1442695040888963407);
        (self.0 >> 33) as usize % n
    }

    fn chance(&mut self, percent: u8) -> bool {
        self.below(100) < percent as usize
    }
}

fn node(i: usize, kind: Kind, deps: Vec<(usize, Output)>) -> Node {
    Node {
        name: format!("n{i}"),
        kind,
        deps,
        root_output: None,
        root_drv: false,
    }
}

#[test]
fn random_stores_fit() {
    let mut sizes = std::collections::BTreeSet::new();
    let mut edges = 0;
    let mut rooted = 0;
    for seed in 0..200 {
        let keep_outputs = seed % 2 == 0;
        let nodes = gen_graph(&mut Lcg(seed), keep_outputs);
        sizes.insert(nodes.len());
        let mut deferred = vec![false; nodes.len()];
        for (i, n) in nodes.iter().enumerate() {
            assert_eq!(n.name, format!("n{i}"));
            deferred[i] = n.kind == Kind::Ca || n.deps.iter().any(|&(j, _)| deferred[j]);
            for &(j, output) in &n.deps {
                assert!(j < i && nodes[j].kind != Kind::Impure);
                assert!(output == Output::Out || nodes[j].kind == Kind::Multi);
            }
            if n.kind.is_eval() || n.kind == Kind::Impure {
                assert!(n.deps.is_empty());
            }
            if n.kind == Kind::Impure {
                assert!(n.root_output.is_none() && !n.root_drv);
            }
            if n.root_drv {
                assert!(!n.kind.is_eval() && !(keep_outputs && deferred[i]));
            }
            edges += n.deps.len();
            rooted += n.root_output.is_some() as usize + n.root_drv as usize;
        }
    }
    assert!(sizes.iter().all(|&n| (6..=16).contains(&n)) && sizes.len() == 11);
    assert!(edges > 1000 && rooted > 300);
}

/// A source that hands out given numbers, says yes to every choice, and keeps
/// what it was asked.
struct Script {
    numbers: Vec<usize>,
    bounds: Vec<usize>,
    chances: Vec<u8>,
}

impl Draws for Script {
    fn below(&mut self, n: usize) -> usize {
        self.bounds.push(n);
        self.numbers[self.bounds.len() - 1]
    }

    fn chance(&mut self, percent: u8) -> bool {
        self.chances.push(percent);
        true
    }
}

#[test]
fn stores_are_what_was_drawn() {
    let mut script = Script {
        numbers: vec![11, 3, 0, 9, 7, 14, 6],
        bounds: vec![],
        chances: vec![],
    };
    let nodes = gen_graph(&mut script, true);
    let kinds: Vec<Kind> = nodes.iter().map(|n| n.kind).collect();
    assert_eq!(
        kinds,
        [Kind::Multi, Kind::Plain, Kind::Impure, Kind::Text, Kind::Fod, Kind::Ca]
    );
    assert_eq!(nodes[1].deps, [(0, Output::Dev)]);
    assert_eq!(nodes[4].deps, [(0, Output::Dev), (1, Output::Out)]);
    assert_eq!(
        nodes[5].deps,
        [(0, Output::Dev), (1, Output::Out), (3, Output::Out), (4, Output::Out)]
    );
    assert!([0, 2, 3].iter().all(|&i: &usize| nodes[i].deps.is_empty()));
    let roots: Vec<(Option<Output>, bool)> =
        nodes.iter().map(|n| (n.root_output, n.root_drv)).collect();
    assert_eq!(
        roots,
        [
            (Some(Output::Dev), true),
            (Some(Output::Out), true),
            (None, false),
            (Some(Output::Out), false),
            (Some(Output::Out), true),
            (Some(Output::Out), false),
        ]
    );
    assert_eq!(script.bounds, [11, 10, 10, 10, 10, 10, 10]);
    assert_eq!(
        script.chances,
        [35, 50, 35, 50, 35, 35, 50, 35, 35, 35, 30, 50, 10, 30, 10, 30, 30, 10, 30]
    );
}

#[test]
fn draws_decide_dependencies() {
    let nodes = vec![
        node(0, Kind::Multi, vec![]),
        node(1, Kind::Text, vec![]),
        node(2, Kind::Impure, vec![]),
        node(3, Kind::Plain, vec![]),
    ];
    let all = [true; 4];
    assert!(
        deps_of_draws(&nodes, Kind::Plain, &all, &all)
            == vec![(0, Output::Dev), (1, Output::Out), (3, Output::Out)]
    );
    assert!(
        deps_of_draws(&nodes, Kind::Fod, &all, &[false; 4])
            == vec![(0, Output::Out), (3, Output::Out)]
    );
    assert!(deps_of_draws(&nodes, Kind::Src, &all, &all).is_empty());
    assert!(deps_of_draws(&nodes, Kind::Plain, &[false; 4], &all).is_empty());
    assert!(!can_depend(Kind::Impure, Kind::Plain) && !can_depend(Kind::Plain, Kind::Impure));
    assert!(root_of_draws(Kind::Multi, true, true) == Some(Output::Dev));
    assert!(root_of_draws(Kind::Plain, true, true) == Some(Output::Out));
    assert!(root_of_draws(Kind::Impure, true, false).is_none());
    assert!(may_root_drv(Kind::Ca, false, true) && !may_root_drv(Kind::Ca, true, true));
    let plain = (0..KIND_DRAWS).filter(|&k| kind_of_draw(k) == Kind::Plain).count();
    assert_eq!(plain, 3);
    assert!(kind_of_draw(9) == Kind::Impure);
}

#[test]
fn expressions_are_rendered() {
    let nodes = vec![
        node(0, Kind::Multi, vec![]),
        node(1, Kind::Text, vec![]),
        node(2, Kind::Ca, vec![(0, Output::Dev), (1, Output::Out)]),
        node(3, Kind::Src, vec![]),
        node(4, Kind::Impure, vec![]),
        node(5, Kind::Fod, vec![(0, Output::Out)]),
        node(6, Kind::FodRec, vec![]),
        node(7, Kind::Plain, vec![(2, Output::Out)]),
    ];
    assert_eq!(dep_list(&nodes, &nodes[2]), "(n0.dev) n1");
    let expected = "let
  system = builtins.currentSystem;
  sh = \"/bin/sh\";
  mk = name: extra: derivation ({
    inherit name system;
    builder = sh;
    args = [ \"-c\" \"echo $name > $out; for d in $deps; do echo dep $d >> $out; done\" ];
    deps = [];
  } // extra);
in rec {
  n0 = derivation {
    name = \"n0\";
    inherit system;
    builder = sh;
    args = [ \"-c\" \"echo $name-out > $out; echo $name-dev > $dev; for d in $deps; do echo dep $d >> $out; echo dep $d >> $dev; done\" ];
    deps = [  ];
    outputs = [ \"out\" \"dev\" ];
  };
  n1 = builtins.toFile \"n1\" \"text n1\\n\";
  n2 = mk \"n2\" { deps = [ (n0.dev) n1 ]; __contentAddressed = true; outputHashMode = \"recursive\"; outputHashAlgo = \"sha256\"; };
  n3 = builtins.path { path = /t/src; name = \"n3\"; };
  n4 = derivation { name = \"n4\"; inherit system; builder = sh; args = [ \"-c\" \"echo impure-n4 > $out\" ]; __impure = true; };
  n5 = derivation { name = \"n5\"; inherit system; builder = sh; args = [ \"-c\" \": > $out\" ]; deps = [ n0 ]; outputHashMode = \"flat\"; outputHashAlgo = \"sha256\"; outputHash = \"sha256-47DEQpj8HBSa+/TImW+5JCeuQeRkm5NMpJWZG3hSuFU=\"; };
  n6 = derivation { name = \"n6\"; inherit system; builder = sh; args = [ \"-c\" \"echo hi > $out\" ]; deps = [  ]; outputHashMode = \"recursive\"; outputHashAlgo = \"sha256\"; outputHash = \"sha256-EFUdrtf6Rn0LWIJufrmg8q99aT3jGfLvd1//zaJEufY=\"; };
  n7 = mk \"n7\" { deps = [ n2 ]; };
}
";
    assert_eq!(render_expr(&nodes, "/t/src"), expected);
    let args = build_args(&nodes, "/t/exprs.nix");
    assert_eq!(
        args,
        ["build", "-f", "/t/exprs.nix", "n0", "n2", "n4", "n5", "n6", "n7", "--no-link"]
    );
}

#[test]
fn expressions_may_name_any_node() {
    // Neither the order nor the kinds of dependencies matter here.
    let nodes = vec![
        node(0, Kind::Text, vec![(1, Output::Dev)]),
        node(1, Kind::Impure, vec![]),
        node(2, Kind::Plain, vec![(2, Output::Out), (1, Output::Dev)]),
    ];
    let expr = render_expr(&nodes, "/src");
    assert!(expr.contains("  n2 = mk \"n2\" { deps = [ n2 (n1.dev) ]; };\n"));
    assert_eq!(dep_list(&nodes, &nodes[0]), "(n1.dev)");
}

#[test]
fn settings_are_rendered() {
    assert_eq!(
        nix_config(true, false),
        "experimental-features = nix-command ca-derivations impure-derivations\n\
         sandbox = false\n\
         substituters =\n\
         builders =\n\
         max-jobs = auto\n\
         keep-outputs = true\n\
         keep-derivations = false\n"
    );
    assert_eq!(
        store_uri("/t/nix/store", "/t/nix/var/nix", "/t"),
        "local?store=/t/nix/store&state=/t/nix/var/nix&log=/t/nix/var/log/nix"
    );
}

#[test]
fn roots_are_made() {
    let mut n = node(3, Kind::Multi, vec![]);
    assert!(root_steps(&n).is_empty());
    n.root_output = Some(Output::Dev);
    n.root_drv = true;
    let steps = root_steps(&n);
    assert_eq!(steps.len(), 2);
    assert!(steps[0].query == TargetQuery::Build);
    assert_eq!((steps[0].attr.as_str(), steps[0].link.as_str()), ("n3.dev", "n3-dev"));
    assert!(steps[1].query == TargetQuery::Eval);
    assert_eq!((steps[1].attr.as_str(), steps[1].link.as_str()), ("n3.drvPath", "n3-drv"));
    let mut text = node(4, Kind::Text, vec![]);
    text.root_output = Some(Output::Out);
    let steps = root_steps(&text);
    assert!(steps[0].query == TargetQuery::Eval);
    assert_eq!((steps[0].attr.as_str(), steps[0].link.as_str()), ("n4", "n4-out"));
}
