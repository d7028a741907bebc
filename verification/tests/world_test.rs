use std::collections::BTreeSet;

use s3_simulation::baseline::{opinion_counts, run_linear_threshold, voter_round};
use s3_simulation::mechanisms::{apply_contagion, LLMPerceptionMechanism, NetworkInitMechanism};
use s3_simulation::metrics::population_counts;
use s3_simulation::network::FollowGraph;
use s3_simulation::parse::ContagionDecision;
use s3_simulation::simulation::{initial_profile, seed_posters};
use s3_simulation::world::{AgentState, Attitude, Behavior, Emotion, Message, Profile, S3World};

fn profile() -> Profile {
    Profile { gender: "person".into(), age: 30, occupation: "worker".into() }
}

fn world3(net: FollowGraph) -> S3World {
    let agents = (0..3)
        .map(|_| AgentState::new(profile(), Emotion::Calm, Attitude::Negative))
        .collect();
    S3World::new(net, agents, 5)
}

fn msg(author: u64, content: &str) -> Message {
    Message { author, origin: author, content: content.into(), round: 0, is_repost: false }
}

/// A -> B and C -> B (A and C follow B): B's post reaches A and C, not B.
#[test]
fn directed_edge_delivers_to_followers() {
    let (a, b, c) = (0u64, 1u64, 2u64);
    let mut net = FollowGraph::with_nodes(3);
    net.add_edge(a, b);
    net.add_edge(c, b);
    let mut world = world3(net);

    let followers_b: BTreeSet<u64> = world.followers(b).into_iter().collect();
    assert_eq!(followers_b, BTreeSet::from([a, c]));

    world.outbox.push(msg(b, "hello from B"));
    NetworkInitMechanism.apply(&mut world);

    assert_eq!(world.inbox[a as usize].len(), 1, "A follows B, so it receives one message");
    assert_eq!(world.inbox[c as usize].len(), 1, "C follows B, so it receives one message");
    assert_eq!(world.inbox[b as usize].len(), 0, "B does not follow itself");
    assert_eq!(world.inbox[a as usize][0].author, b);
}

#[test]
fn delivery_clears_inboxes_and_grows_cascade() {
    let mut net = FollowGraph::with_nodes(3);
    net.add_edge(0, 1);
    net.add_edge(0, 1);
    let mut world = world3(net);
    world.outbox.push(msg(1, "first"));
    world.outbox.push(msg(2, "nobody follows 2"));
    world.outbox.push(msg(1, "second"));
    NetworkInitMechanism.apply(&mut world);
    let contents: Vec<&str> = world.inbox[0].iter().map(|m| m.content.as_str()).collect();
    assert_eq!(contents, ["first", "second"]);
    assert!(world.outbox.is_empty());
    assert_eq!(world.reached, vec![true, false, false]);
    assert_eq!(world.cascade_size_exec(), 1);
    // The next round starts from empty inboxes.
    NetworkInitMechanism.apply(&mut world);
    assert!(world.inbox[0].is_empty());
    assert_eq!(world.cascade_size_exec(), 1);
}

#[test]
fn seeding_and_synchronous_contagion() {
    let mut net = FollowGraph::with_nodes(3);
    net.add_edge(1, 0);
    net.add_edge(2, 1);
    let mut world = world3(net);
    seed_posters(&mut world, 1);
    assert_eq!(world.cascade_size_exec(), 1, "round 0 reaches only the seed posters");
    assert_eq!(world.agents[0].behavior, Behavior::Post);
    assert_eq!(world.outbox[0].content, "Sharing my view on nuclear wastewater release.");

    NetworkInitMechanism.apply(&mut world);
    assert_eq!(world.inbox[1].len(), 1);

    // Agent 1 reposts what it selected; the repost waits for the next round.
    let selected = world.inbox[1].clone();
    let decision = ContagionDecision {
        emotion: Some(Emotion::Intense),
        attitude: None,
        behavior: Some(Behavior::Repost),
        content: None,
    };
    let mut next = Vec::new();
    apply_contagion(&mut world, 1, &selected, &decision, 1, &mut next);
    let a = &world.agents[1];
    assert_eq!(a.emotion, Emotion::Intense);
    assert_eq!(a.attitude, Attitude::Negative);
    assert_eq!(a.behavior, Behavior::Repost);
    assert_eq!(a.memory.len(), 1);
    assert_eq!(next.len(), 1);
    assert!(next[0].is_repost);
    assert_eq!(next[0].origin, 0);
    assert_eq!(next[0].author, 1);
    assert_eq!(next[0].content, "Sharing my view on nuclear wastewater release.");
    assert!(world.inbox[2].is_empty(), "nothing reaches agent 2 within the round");

    // An inactive decision sends nothing; a post with content sends one and marks the poster reached.
    let mut next2 = Vec::new();
    let quiet = ContagionDecision { emotion: None, attitude: Some(Attitude::Positive), behavior: Some(Behavior::Inactive), content: None };
    apply_contagion(&mut world, 2, &Vec::new(), &quiet, 1, &mut next2);
    assert!(next2.is_empty());
    assert_eq!(world.agents[2].attitude, Attitude::Positive);
    let post = ContagionDecision { emotion: None, attitude: None, behavior: Some(Behavior::Post), content: Some("mine".into()) };
    apply_contagion(&mut world, 2, &Vec::new(), &post, 1, &mut next2);
    assert_eq!(next2.len(), 1);
    assert!(!next2[0].is_repost);
    assert!(world.reached[2]);
    // An id that is no agent changes nothing.
    apply_contagion(&mut world, 7, &Vec::new(), &post, 1, &mut next2);
    assert_eq!(next2.len(), 1);
}

#[test]
fn counts_partition_population() {
    let mut agents: Vec<AgentState> = Vec::new();
    for (e, a, b) in [
        (Emotion::Calm, Attitude::Positive, Behavior::Post),
        (Emotion::Intense, Attitude::Negative, Behavior::Inactive),
        (Emotion::Moderate, Attitude::Positive, Behavior::Repost),
        (Emotion::Calm, Attitude::Negative, Behavior::Inactive),
    ] {
        let mut s = AgentState::new(profile(), e, a);
        s.behavior = b;
        agents.push(s);
    }
    let c = population_counts(&agents);
    assert_eq!((c.n, c.positive, c.calm, c.moderate, c.intense, c.active), (4, 2, 2, 1, 1, 2));
    let empty = population_counts(&Vec::new());
    assert_eq!((empty.n, empty.positive, empty.calm, empty.active), (0, 0, 0, 0));
}

#[test]
fn perception_step_selects_at_least_one() {
    assert_eq!(LLMPerceptionMechanism::new(0, false).top_k, 1);
    assert_eq!(LLMPerceptionMechanism::new(3, true).top_k, 3);
}

#[test]
fn initial_attributes() {
    let p = initial_profile(7, 1, 9);
    assert_eq!(p.gender, "woman");
    assert_eq!(p.age, 27);
    assert_eq!(p.occupation, "engineer");
}

#[test]
fn linear_threshold_is_progressive() {
    // 1 follows 0; 2 follows 0 and 1; 3 follows 2.
    let mut net = FollowGraph::with_nodes(4);
    net.add_edge(1, 0);
    net.add_edge(2, 0);
    net.add_edge(2, 1);
    net.add_edge(3, 2);
    // Each node needs one active followee, node 2 needs both.
    let need = vec![1, 1, 2, 1];
    let r = run_linear_threshold(&net, 1, &need, 10);
    assert_eq!(r.active_counts, vec![1, 2, 3, 4, 4]);
    assert_eq!(r.final_round, 4);
    assert!(r.converged);
    let r = run_linear_threshold(&net, 1, &need, 2);
    assert_eq!(r.active_counts, vec![1, 2, 3]);
    assert!(!r.converged);
}

#[test]
fn voter_copies_picked_followee() {
    let mut net = FollowGraph::with_nodes(3);
    net.add_edge(1, 0);
    net.add_edge(2, 1);
    net.add_edge(2, 0);
    let mut opinion = vec![true, false, false];
    let mut reached = vec![true, false, false];
    let changed = voter_round(&net, &mut opinion, &mut reached, &vec![0, 0, 0], true, false);
    assert!(changed);
    assert_eq!(opinion, vec![true, true, false]);
    assert_eq!(reached, vec![true, true, false]);
    assert_eq!(opinion_counts(&opinion, true, false), (2, 2));
}
