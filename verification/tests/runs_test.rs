use s3_simulation::cascade::CascadeRun;
use s3_simulation::mechanisms::contagion_round;
use s3_simulation::network::FollowGraph;
use s3_simulation::parse::ContagionDecision;
use s3_simulation::voter::VoterRun;
use s3_simulation::world::{AgentState, Attitude, Behavior, Emotion, Message, Profile, S3World};

fn world(n: usize, net: FollowGraph) -> S3World {
    let profile = Profile { gender: "person".into(), age: 30, occupation: "worker".into() };
    let agents = (0..n).map(|_| AgentState::new(profile.clone(), Emotion::Calm, Attitude::Negative)).collect();
    S3World::new(net, agents, 5)
}

fn msg(author: u64, content: &str) -> Message {
    Message { author, origin: author, content: content.into(), round: 0, is_repost: false }
}

fn decision(b: Behavior, content: Option<&str>) -> ContagionDecision {
    ContagionDecision { emotion: None, attitude: Some(Attitude::Positive), behavior: Some(b), content: content.map(String::from) }
}

#[test]
fn contagion_round_replaces_outbox_in_activation_order() {
    let mut w = world(3, FollowGraph::with_nodes(3));
    w.outbox.push(msg(0, "stale"));
    w.inbox[1].push(msg(0, "seen"));
    let order = vec![2, 0, 1];
    let sels = vec![vec![], vec![], vec![msg(0, "seen")]];
    let decs = vec![
        decision(Behavior::Post, Some("from two")),
        decision(Behavior::Inactive, None),
        decision(Behavior::Repost, None),
    ];
    contagion_round(&mut w, &order, &sels, &decs, 3);
    let sent: Vec<(u64, &str, u64, bool)> =
        w.outbox.iter().map(|m| (m.author, m.content.as_str(), m.round, m.is_repost)).collect();
    assert_eq!(sent, vec![(2, "from two", 3, false), (1, "seen", 3, true)]);
    assert_eq!(w.inbox[1].len(), 1, "inboxes are left as they were");
    assert_eq!(w.reached, vec![false, false, true]);
    assert!(w.agents.iter().all(|a| a.attitude == Attitude::Positive));
    assert_eq!(w.agents[1].memory.len(), 1);
}

#[test]
fn voter_run_stops_when_nothing_changes() {
    // 1 follows 0, 2 follows 1.
    let mut net = FollowGraph::with_nodes(3);
    net.add_edge(1, 0);
    net.add_edge(2, 1);
    let mut run = VoterRun::start(&net, 1, true, false);
    assert_eq!(run.reached_counts, vec![1]);
    while run.round < 10 && !run.converged {
        run.step(&net, &vec![0, 0, 0]);
    }
    assert_eq!(run.one_counts, vec![1, 2, 3, 3]);
    assert_eq!(run.positive_counts, run.one_counts);
    assert_eq!(run.reached_counts, vec![1, 2, 3, 3]);
    assert_eq!(run.round, 3);
    assert!(run.converged);
}

#[test]
fn cascade_run_converges_when_every_coin_fails() {
    // 1 and 2 follow 0.
    let mut net = FollowGraph::with_nodes(3);
    net.add_edge(1, 0);
    net.add_edge(2, 0);
    let mut run = CascadeRun::start(&net, 1);
    let mut round = run.begin_round(&net);
    while round.next_attempt().is_some() {
        round.record(false);
    }
    run.end_round(&net, round);
    assert_eq!(run.round, 1);
    assert!(run.converged);
    assert_eq!(run.reached_counts, vec![1, 1]);

    let mut run = CascadeRun::start(&net, 1);
    while run.round < 5 && !run.converged {
        let mut round = run.begin_round(&net);
        while round.next_attempt().is_some() {
            round.record(true);
        }
        run.end_round(&net, round);
    }
    assert_eq!(run.reached_counts, vec![1, 3, 3]);
    assert_eq!(run.round, 2);
    assert!(run.converged);
    assert_eq!(run.active, vec![true, true, true]);
}
