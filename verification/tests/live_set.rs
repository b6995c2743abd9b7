use fast_nix_gc::gc_socket::{on_line, request_line, LineAction, ACK, MAX_LINE};
use fast_nix_gc::graph::{BasenameIndex, StoreGraph};
use fast_nix_gc::live_set::LiveSet;

const PREFIX: &str = "/nix/store/";

fn graph(paths: &[(&str, &[u32])]) -> StoreGraph {
    let n = paths.len();
    let mut edges: Vec<(u32, u32)> = Vec::new();
    for (i, (_, refs)) in paths.iter().enumerate() {
        for r in refs.iter() {
            edges.push((i as u32, *r));
        }
    }
    StoreGraph::from_edges(
        paths.iter().map(|(p, _)| format!("{PREFIX}{p}")).collect(),
        vec![0; n],
        vec![0; n],
        &edges,
        PREFIX.to_owned(),
    )
}

/// A client that sent a line and waits for its answer.
struct Client {
    basename: String,
    wait_for: Vec<u32>,
}

impl Client {
    fn send(line: &str, live: &mut LiveSet, g: &StoreGraph, idx: &BasenameIndex) -> Client {
        match on_line(line, PREFIX) {
            LineAction::Root(basename) => {
                let wait_for = live.begin_protect(&basename, g, idx);
                Client { basename, wait_for }
            }
            _ => panic!("a root was expected"),
        }
    }

    fn acked(&self, live: &LiveSet) -> bool {
        !live.conflict(&self.wait_for, &self.basename)
    }
}

#[test]
fn protect_marks_closure_and_blocks_deletion() {
    // 0 -> 1 -> 2, 3 standalone
    let g = graph(&[("a", &[1]), ("b", &[2]), ("c", &[]), ("d", &[])]);
    let idx = BasenameIndex::new(&g);
    let mut live = LiveSet::new(g.len());

    let client = Client::send("/nix/store/a\n", &mut live, &g, &idx);
    assert!(client.acked(&live));
    assert_eq!(ACK, b'1');

    // Closure of a (0,1,2) is protected; d (3) is still deletable.
    assert!(!live.try_begin_delete_node(0));
    assert!(!live.try_begin_delete_node(1));
    assert!(!live.try_begin_delete_node(2));
    assert!(live.try_begin_delete_node(3));
    live.end_delete_node(3);
    assert_eq!(live.protected_snapshot(), vec![true, true, true, false]);
}

#[test]
fn protect_blocks_until_pending_delete_finishes() {
    let g = graph(&[("x", &[])]);
    let idx = BasenameIndex::new(&g);
    let mut live = LiveSet::new(g.len());

    // The deleter claims node 0.
    assert!(live.try_begin_delete_node(0));

    let client = Client::send("/nix/store/x\n", &mut live, &g, &idx);
    // The ack must not come until end_delete_node is called.
    assert!(!client.acked(&live), "ack came too early");

    live.end_delete_node(0);
    assert!(client.acked(&live));
    // After protection, a fresh delete attempt is refused.
    assert!(!live.try_begin_delete_node(0));
}

#[test]
fn protect_waits_for_already_protected_pending_node() {
    // Two roots a -> c and b -> c share a leaf. While c is being unlinked,
    // protecting a marks c protected and waits. A second protect for b must
    // also wait for c, not ack early just because c is already protected.
    let g = graph(&[("a", &[2]), ("b", &[2]), ("c", &[])]);
    let idx = BasenameIndex::new(&g);
    let mut live = LiveSet::new(g.len());

    // c is in flight.
    assert!(live.try_begin_delete_node(2));

    let a = Client::send("/nix/store/a\n", &mut live, &g, &idx);
    assert!(!a.acked(&live), "a acked too early");

    // c is now protected but still pending. b's protect must not ack yet.
    let b = Client::send("/nix/store/b\n", &mut live, &g, &idx);
    assert!(!b.acked(&live), "b acked too early");

    // c finishes; both unblock.
    live.end_delete_node(2);
    for client in [&a, &b] {
        assert!(client.acked(&live));
    }
}

#[test]
fn claim_nodes_partitions_and_blocks_protect() {
    let g = graph(&[("a", &[]), ("b", &[])]);
    let idx = BasenameIndex::new(&g);
    let mut live = LiveSet::new(g.len());

    // Protect b up front; claim must skip it and claim a.
    assert!(Client::send("/nix/store/b\n", &mut live, &g, &idx).acked(&live));

    let (claimed, skipped) = live.claim_nodes(&[0, 1]);
    assert_eq!(claimed, vec![0]);
    assert_eq!(skipped, vec![1]);

    // A protect for the claimed node must block until its unlink is done.
    let client = Client::send("/nix/store/a\n", &mut live, &g, &idx);
    assert!(!client.acked(&live), "acked mid-deletion");

    live.end_delete_node(0);
    assert!(client.acked(&live));
}

#[test]
fn unknown_path_protected_by_basename() {
    let g = graph(&[]);
    let idx = BasenameIndex::new(&g);
    let mut live = LiveSet::new(0);

    let client = Client::send("/nix/store/zzz-fresh\n", &mut live, &g, &idx);
    assert!(client.acked(&live));

    assert!(!live.try_begin_delete_unknown("zzz-fresh"));
    assert!(live.try_begin_delete_unknown("other"));
    live.end_delete_unknown("other");
    assert_eq!(live.protected_unknown_snapshot(), vec!["zzz-fresh".to_owned()]);
}

#[test]
fn unknown_path_waits_for_its_own_deletion() {
    let g = graph(&[]);
    let idx = BasenameIndex::new(&g);
    let mut live = LiveSet::new(0);
    assert!(live.try_begin_delete_unknown("zzz-fresh"));
    let client = Client::send("/nix/store/zzz-fresh\n", &mut live, &g, &idx);
    assert!(!client.acked(&live));
    live.end_delete_unknown("zzz-fresh");
    assert!(client.acked(&live));
    assert!(!live.try_begin_delete_unknown("zzz-fresh"));
}

#[test]
fn settling_drops_what_skipped_nodes_reach() {
    let g = graph(&[("a", &[1]), ("b", &[2]), ("c", &[]), ("d", &[])]);
    let mut live = LiveSet::new(g.len());
    let (claimed, skipped) = live.claim_nodes(&[1, 2, 3]);
    assert_eq!((claimed.len(), skipped.len()), (3, 0));
    assert_eq!(live.settle_claim(&g, claimed, &[0]), vec![3]);
    // Nodes that were dropped are no longer pending.
    assert!(!live.conflict(&[1, 2], "x"));
    assert!(live.conflict(&[3], "x"));
}

#[test]
fn lines_are_roots_or_garbage() {
    assert!(matches!(on_line("", PREFIX), LineAction::Closed));
    assert!(matches!(on_line("/nix/store/\n", PREFIX), LineAction::Garbage));
    assert!(matches!(on_line("/tmp/x\n", PREFIX), LineAction::Garbage));
    let long = "a".repeat(MAX_LINE);
    assert!(matches!(on_line(&long, PREFIX), LineAction::TooLong));
    let exact = format!("{PREFIX}{}\n", "a".repeat(MAX_LINE - PREFIX.len() - 1));
    assert_eq!(exact.len(), MAX_LINE);
    assert!(matches!(on_line(&exact, PREFIX), LineAction::Root(_)));
}

#[test]
fn requests_are_understood() {
    let line = request_line("/nix/store/abc-x");
    assert_eq!(line, "/nix/store/abc-x\n");
    match on_line(&line, PREFIX) {
        LineAction::Root(name) => assert_eq!(name, "abc-x"),
        _ => panic!("a root was expected"),
    }
}
