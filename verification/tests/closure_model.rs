use fast_nix_gc::db::{NixDb, PathRow};
use fast_nix_gc::deletion::{dead_indices, deletion_order};
use fast_nix_gc::gc::{compute_liveness, dry_run_fits, dry_run_report, next_chunk, GcOptions};
use fast_nix_gc::graph::StoreGraph;

struct Lcg(u64);

impl Lcg {
    fn below(&mut self, n: u64) -> u64 {
        self.0 = self
            .0
            .wrapping_mul(6364136223846793005)
            .wrapping_add(1442695040888963407);
        (self.0 >> 33) % n
    }
}

struct Case {
    n: usize,
    edges: Vec<(u32, u32)>,
    roots: Vec<u32>,
}

fn random_case(seed: u64) -> Case {
    let mut r = Lcg(seed.wrapping_mul(77777).wrapping_add(5));
    let n = r.below(20) as usize + 1;
    let edges = (0..r.below(3 * n as u64))
        .map(|_| (r.below(n as u64) as u32, r.below(n as u64) as u32))
        .collect();
    let roots = (0..r.below(4)).map(|_| r.below(n as u64) as u32).collect();
    Case { n, edges, roots }
}

fn graph(case: &Case) -> StoreGraph {
    StoreGraph::from_edges(
        (0..case.n).map(|i| format!("/s/{i}")).collect(),
        (0..case.n).map(|i| 10 * i as u64).collect(),
        (0..case.n).map(|i| i as i64).collect(),
        &case.edges,
        "/s/".to_owned(),
    )
}

/// What is alive, by repetition until nothing changes.
fn reference_alive(case: &Case) -> Vec<bool> {
    let mut alive = vec![false; case.n];
    for &r in &case.roots {
        alive[r as usize] = true;
    }
    loop {
        let before = alive.clone();
        for &(a, b) in &case.edges {
            if alive[a as usize] {
                alive[b as usize] = true;
            }
        }
        if alive == before {
            return alive;
        }
    }
}

#[test]
fn closure_matches_a_fixpoint() {
    for seed in 0..500 {
        let case = random_case(seed);
        let g = graph(&case);
        let expected = reference_alive(&case);
        assert_eq!(g.compute_closure(&case.roots), expected, "seed {seed}");
        let live = compute_liveness(&g, &case.roots, &[], &[], None);
        assert_eq!(live.alive, expected);
        let mut roots = case.roots.clone();
        roots.sort();
        roots.dedup();
        assert_eq!(live.roots, roots);
        for r in 0..case.n as u32 {
            let one = Case {
                n: case.n,
                edges: case.edges.clone(),
                roots: vec![r],
            };
            let mut nodes = g.closure_of(r);
            nodes.sort();
            let marks = reference_alive(&one);
            let expected: Vec<u32> = (0..case.n as u32).filter(|&m| marks[m as usize]).collect();
            assert_eq!(nodes, expected);
        }
    }
}

#[test]
fn adjacency_keeps_the_order_of_edges() {
    let case = Case {
        n: 4,
        edges: vec![(2, 1), (0, 3), (2, 0), (0, 3), (3, 3)],
        roots: vec![],
    };
    let g = graph(&case);
    assert_eq!(g.refs(0), &[3, 3]);
    assert!(g.refs(1).is_empty());
    assert_eq!(g.refs(2), &[1, 0]);
    assert_eq!(g.refs(3), &[3]);
}

#[test]
fn deletion_order_is_safe_at_every_cut() {
    for seed in 0..500 {
        let case = random_case(seed);
        let g = graph(&case);
        let alive = reference_alive(&case);
        let dead = dead_indices(&alive);
        let (order, acyclic) = deletion_order(&g, &alive);
        let mut sorted = order.clone();
        sorted.sort();
        assert_eq!(sorted, dead, "seed {seed}: every dead path once");
        for cut in (0..=acyclic).chain([order.len()]) {
            let gone = &order[..cut];
            for &(a, b) in &case.edges {
                assert!(
                    gone.contains(&a) || !gone.contains(&b),
                    "seed {seed}: {a} stays but references {b}"
                );
            }
        }
    }
}

#[test]
fn cycles_come_last_and_whole() {
    // 0 <-> 1, 1 -> 2, 3 -> 0
    let case = Case {
        n: 4,
        edges: vec![(0, 1), (1, 0), (1, 2), (3, 0)],
        roots: vec![],
    };
    let g = graph(&case);
    let (order, acyclic) = deletion_order(&g, &[false; 4]);
    assert_eq!((order.as_slice(), acyclic), (&[3, 0, 1, 2][..], 1));
    let mut opts = GcOptions::default();
    opts.chunk_size = Some(1);
    assert_eq!(next_chunk(&order, acyclic, &g.nar_sizes, 0, 0, &opts), Some(1));
    assert_eq!(next_chunk(&order, acyclic, &g.nar_sizes, 1, 0, &opts), Some(4));
    assert_eq!(next_chunk(&order, acyclic, &g.nar_sizes, 4, 0, &opts), None);
}

#[test]
fn chunks_stop_at_the_estimate() {
    let sizes = [10, 20, 30, 40];
    let order = [0, 1, 2, 3];
    let mut opts = GcOptions::default();
    assert_eq!(next_chunk(&order, 4, &sizes, 0, 0, &opts), Some(4));
    opts.max_freed = Some(31);
    assert_eq!(next_chunk(&order, 4, &sizes, 0, 0, &opts), Some(3));
    assert_eq!(next_chunk(&order, 4, &sizes, 3, 30, &opts), Some(4));
    assert_eq!(next_chunk(&order, 4, &sizes, 3, 31, &opts), None);
    opts.chunk_size = Some(0);
    assert_eq!(next_chunk(&order, 4, &sizes, 0, 0, &opts), Some(1));
}

#[test]
fn reports_skip_what_is_protected() {
    let case = Case {
        n: 4,
        edges: vec![],
        roots: vec![],
    };
    let g = graph(&case);
    let protected = [false, true, false, false];
    let unknown = vec![b"x".to_vec(), b"y".to_vec(), vec![0xff]];
    assert!(dry_run_fits(&g, &[0, 1, 2, 3], &protected, u64::MAX));
    let r = dry_run_report(
        &g,
        &[0, 1, 2, 3],
        &protected,
        &unknown,
        &["y".to_owned()],
        u64::MAX,
    );
    assert_eq!(r.nodes, vec![0, 2, 3]);
    assert_eq!(r.estimated, 50);
    assert_eq!(r.names, vec![b"x".to_vec(), vec![0xff]]);
    let r = dry_run_report(&g, &[0, 1, 2, 3], &protected, &unknown, &[], 20);
    assert_eq!((r.nodes, r.estimated), (vec![0, 2], 20));
}

#[test]
fn last_row_of_an_id_counts() {
    let db = NixDb::new(b"/s", b"/t", false, false);
    let row = |id: i64, path: &str| PathRow {
        id,
        path: path.to_owned(),
        nar_size: Some(1),
        registration_time: 1,
    };
    let g = db.load_graph(
        5,
        vec![row(3, "/s/a"), row(5, "/s/b"), row(7, "/s/far")],
        &[(3, 5), (5, 7), (-1, 3), (3, 4), (3, 3)],
    );
    assert_eq!(g.refs(0), &[1, 0]);
    assert!(g.refs(1).is_empty() && g.refs(2).is_empty());
}
