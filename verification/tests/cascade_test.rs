use s3_simulation::cascade::CascadeRound;
use s3_simulation::network::FollowGraph;
use s3_simulation::perception::{token_overlap, tokens};

/// Runs one round with the given coins, returning the frontier, the count
/// and the nodes that were tried, in order.
fn round(net: &FollowGraph, active: &mut Vec<bool>, frontier: &Vec<bool>, coins: &[bool]) -> (Vec<bool>, usize, Vec<u64>) {
    let mut r = CascadeRound::start(net, active, frontier);
    let mut tried = Vec::new();
    let mut next_coin = coins.iter();
    while let Some(w) = r.next_attempt() {
        tried.push(w);
        r.record(*next_coin.next().expect("enough coins"));
    }
    let (f, c) = r.finish(active);
    (f, c, tried)
}

#[test]
fn cascade_round_tries_followers_in_order() {
    // 1 and 2 follow 0; 3 follows 1.
    let mut net = FollowGraph::with_nodes(4);
    net.add_edge(2, 0);
    net.add_edge(1, 0);
    net.add_edge(3, 1);
    let mut active = vec![true, false, false, false];
    let frontier = active.clone();

    let (f1, c1, tried1) = round(&net, &mut active, &frontier, &[true, false]);
    assert_eq!(tried1, vec![1, 2]);
    assert_eq!(c1, 1);
    assert_eq!(f1, vec![false, true, false, false]);
    assert_eq!(active, vec![true, true, false, false]);

    let (f2, c2, tried2) = round(&net, &mut active, &f1, &[true]);
    assert_eq!(tried2, vec![3]);
    assert_eq!(c2, 1);
    assert_eq!(f2, vec![false, false, false, true]);
    assert_eq!(active, vec![true, true, false, true]);

    // Node 3 has no followers: the cascade stops.
    let (f3, c3, tried3) = round(&net, &mut active, &f2, &[]);
    assert!(tried3.is_empty());
    assert_eq!(c3, 0);
    assert_eq!(f3, vec![false; 4]);
    assert_eq!(active, vec![true, true, false, true]);
}

#[test]
fn cascade_round_skips_nodes_activated_in_the_round() {
    // 2 follows both 0 and 1; 3 follows 1.
    let mut net = FollowGraph::with_nodes(4);
    net.add_edge(2, 0);
    net.add_edge(2, 1);
    net.add_edge(3, 1);
    let mut active = vec![true, true, false, false];
    let frontier = active.clone();
    let (f, c, tried) = round(&net, &mut active, &frontier, &[true, false]);
    // 2 is tried from 0, activated, and not tried again from 1.
    assert_eq!(tried, vec![2, 3]);
    assert_eq!(c, 1);
    assert_eq!(f, vec![false, false, true, false]);

    // A failed try leaves the node open to the next frontier node.
    let mut active = vec![true, true, false, false];
    let (_, c, tried) = round(&net, &mut active, &frontier, &[false, true, true]);
    assert_eq!(tried, vec![2, 2, 3]);
    assert_eq!(c, 2);
    assert_eq!(active, vec![true, true, true, true]);
}

#[test]
fn tokens_are_long_lowercase_words_once() {
    let t = tokens("Hello, the big World of AI! hello again; WORLD");
    assert_eq!(t, vec!["hello", "the", "big", "world", "again"]);
    assert!(tokens("a an to").is_empty());
    assert_eq!(tokens("engineer-2024 x42y"), vec!["engineer", "2024", "x42y"]);
}

#[test]
fn overlap_counts_intersection_and_union() {
    let a = tokens("a 30-year-old man engineer");
    let b = tokens("The engineer said: year after year, nothing changes.");
    assert_eq!(a, vec!["year", "old", "man", "engineer"]);
    // shared: year, engineer; union: 4 + 7 - 2.
    assert_eq!(token_overlap(&a, &b), (2, 9));
    assert_eq!(token_overlap(&a, &Vec::new()), (0, 4));
    assert_eq!(token_overlap(&a, &a), (4, 4));
}
