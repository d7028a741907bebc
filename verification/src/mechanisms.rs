//! The per-round mechanisms of the simulation, as functions on the world
//! state: message delivery at the start of a round, the choice of how many
//! messages each agent attends to, and the update of one agent from its
//! decoded reply.
//!
//! Rounds are synchronous: what an agent posts in a round goes to the outbox
//! and is delivered only at the start of the next round.

use vstd::prelude::*;

use crate::network::FollowGraph;
use crate::parse::ContagionDecision;
use crate::world::{
    count_true, lemma_count_true_monotone, AgentState, Attitude, Behavior, Emotion, Message, S3World,
};

verus! {

/// The messages of `out` that reach agent `f`: those whose author `f`
/// follows, in the order of `out`.
pub open spec fn received(net: FollowGraph, out: Seq<Message>, f: u64) -> Seq<Message>
    decreases out.len(),
{
    if out.len() == 0 {
        Seq::empty()
    } else {
        let r = received(net, out.drop_last(), f);
        if net.arc(f, out.last().author) {
            r.push(out.last())
        } else {
            r
        }
    }
}

/// The messages that reach agent `f` are those of `out` whose author `f`
/// follows, each once and in the order of `out`; an agent that follows
/// nobody who posted receives nothing.
pub proof fn lemma_received_filter(net: FollowGraph, out: Seq<Message>, f: u64)
    ensures
        received(net, out, f) == out.filter(|m: Message| net.arc(f, m.author)),
    decreases out.len(),
{
    if out.len() > 0 {
        lemma_received_filter(net, out.drop_last(), f);
        assert(out =~= out.drop_last().push(out.last()));
        out.drop_last().lemma_filter_push(out.last(), |m: Message| net.arc(f, m.author));
    }
}

// ------------------------------------------------------------------------- //
// NetworkInitMechanism
// ------------------------------------------------------------------------- //

/// Delivery at the start of a round: inboxes are emptied, and each message of
/// the previous round's outbox goes to every follower of its author.
pub struct NetworkInitMechanism;

impl NetworkInitMechanism {
    /// Empties the inboxes, delivers the outbox to the followers of each
    /// message's author, and adds the receivers to the reached set.
    pub fn apply(&self, world: &mut S3World)
        requires
            old(world).wf(),
        ensures
            final(world).wf(),
            final(world).net == old(world).net,
            final(world).agents == old(world).agents,
            final(world).clock == old(world).clock,
            final(world).outbox@.len() == 0,
            forall|i: int|
                0 <= i < final(world).inbox.len() ==> (#[trigger] final(world).inbox[i])@
                    == received(old(world).net, old(world).outbox@, i as u64),
            forall|i: int|
                0 <= i < final(world).reached.len() ==> (#[trigger] final(world).reached[i]) == (
                old(world).reached[i] || received(old(world).net, old(world).outbox@, i as u64).len()
                    > 0),
            final(world).cascade_size() >= old(world).cascade_size(),
            forall|i: int|
                0 <= i < final(world).inbox.len() ==> (#[trigger] final(world).inbox[i])@
                    == old(world).outbox@.filter(|m: Message| old(world).net.arc(i as u64, m.author)),
    {
        let n = world.agents.len();
        let ghost net = world.net;
        let ghost reached0 = world.reached@;
        for i in 0..n
            invariant
                n == world.agents.len(),
                world.wf(),
                world.net == net,
                world.agents == old(world).agents,
                world.clock == old(world).clock,
                world.outbox == old(world).outbox,
                world.reached@ == reached0,
                forall|j: int| 0 <= j < i ==> (#[trigger] world.inbox[j])@.len() == 0,
        {
            world.inbox.set(i, Vec::new());
        }
        let mut outbox: Vec<Message> = Vec::new();
        std::mem::swap(&mut outbox, &mut world.outbox);
        let ghost out = outbox@;
        assert(out == old(world).outbox@);
        for k in 0..outbox.len()
            invariant
                n == world.agents.len(),
                world.wf(),
                world.net == net,
                net == old(world).net,
                world.agents == old(world).agents,
                world.clock == old(world).clock,
                world.outbox@.len() == 0,
                outbox@ == out,
                forall|i: int|
                    0 <= i < n ==> (#[trigger] world.inbox[i])@ == received(
                        net,
                        out.take(k as int),
                        i as u64,
                    ),
                forall|i: int|
                    0 <= i < n ==> (#[trigger] world.reached[i]) == (reached0[i] || received(
                        net,
                        out.take(k as int),
                        i as u64,
                    ).len() > 0),
        {
            let msg = &outbox[k];
            let fl = world.followers(msg.author);
            proof {
                net.lemma_followers(msg.author);
                assert forall|i: int| 0 <= i < n implies #[trigger] received(
                    net,
                    out.take(k + 1),
                    i as u64,
                ) == if net.arc(i as u64, msg.author) {
                    received(net, out.take(k as int), i as u64).push(*msg)
                } else {
                    received(net, out.take(k as int), i as u64)
                } by {
                    assert(out.take(k + 1).drop_last() =~= out.take(k as int));
                    assert(out.take(k + 1).last() == *msg);
                }
            }
            for j in 0..fl.len()
                invariant
                    n == world.agents.len(),
                    world.wf(),
                    world.net == net,
                    world.agents == old(world).agents,
                    world.clock == old(world).clock,
                    world.outbox@.len() == 0,
                    fl@ == net.spec_followers(msg.author),
                    *msg == out[k as int],
                    0 <= k < out.len(),
                    forall|x: u64| #[trigger] fl@.contains(x) <==> net.arc(x, msg.author),
                    fl@.no_duplicates(),
                    forall|p: int| 0 <= p < fl@.len() ==> (fl@[p] as int) < n,
                    forall|i: int|
                        0 <= i < n ==> #[trigger] received(net, out.take(k + 1), i as u64) == if net.arc(
                            i as u64,
                            msg.author,
                        ) {
                            received(net, out.take(k as int), i as u64).push(*msg)
                        } else {
                            received(net, out.take(k as int), i as u64)
                        },
                    forall|i: int|
                        0 <= i < n ==> (#[trigger] world.inbox[i])@ == if fl@.take(j as int).contains(
                            i as u64,
                        ) {
                            received(net, out.take(k + 1), i as u64)
                        } else {
                            received(net, out.take(k as int), i as u64)
                        },
                    forall|i: int|
                        0 <= i < n ==> (#[trigger] world.reached[i]) == (reached0[i] || if fl@.take(
                            j as int,
                        ).contains(i as u64) {
                            received(net, out.take(k + 1), i as u64).len() > 0
                        } else {
                            received(net, out.take(k as int), i as u64).len() > 0
                        }),
            {
                let f = fl[j];
                proof {
                    assert(fl@.contains(f));
                    assert(!fl@.take(j as int).contains(f));
                    assert forall|x: u64|
                        #[trigger] fl@.take(j + 1).contains(x) <==> (fl@.take(j as int).contains(x)
                            || x == f) by {
                        if fl@.take(j + 1).contains(x) && x != f {
                            let p = choose|p: int| 0 <= p < j + 1 && #[trigger] fl@.take(j + 1)[p] == x;
                            assert(fl@.take(j as int)[p] == x);
                        }
                        if fl@.take(j as int).contains(x) {
                            let p = choose|p: int| 0 <= p < j && #[trigger] fl@.take(j as int)[p] == x;
                            assert(fl@.take(j + 1)[p] == x);
                        }
                        if x == f {
                            assert(fl@.take(j + 1)[j as int] == x);
                        }
                    }
                }
                let fi = f as usize;
                let copy = msg.clone();
                world.inbox[fi].push(copy);
                world.reached.set(fi, true);
                proof {
                    assert forall|i: int| 0 <= i < n implies (#[trigger] world.inbox[i])@ == if fl@.take(
                        j + 1,
                    ).contains(i as u64) {
                        received(net, out.take(k + 1), i as u64)
                    } else {
                        received(net, out.take(k as int), i as u64)
                    } by {
                        if i == fi as int {
                            assert(fl@.take(j + 1).contains(i as u64));
                        } else {
                            assert((i as u64) != f);
                        }
                    }
                    assert forall|i: int| 0 <= i < n implies (#[trigger] world.reached[i]) == (
                    reached0[i] || if fl@.take(j + 1).contains(i as u64) {
                        received(net, out.take(k + 1), i as u64).len() > 0
                    } else {
                        received(net, out.take(k as int), i as u64).len() > 0
                    }) by {
                        if i == fi as int {
                            assert(fl@.take(j + 1).contains(i as u64));
                        } else {
                            assert((i as u64) != f);
                        }
                    }
                }
            }
            proof {
                assert(fl@.take(fl@.len() as int) =~= fl@);
            }
        }
        assert(out.take(out.len() as int) =~= out);
        proof {
            lemma_count_true_monotone(old(world).reached@, world.reached@);
            assert forall|i: int| 0 <= i < world.inbox.len() implies (#[trigger] world.inbox[i])@
                == old(world).outbox@.filter(|m: Message| old(world).net.arc(i as u64, m.author)) by {
                lemma_received_filter(old(world).net, old(world).outbox@, i as u64);
            }
        }
    }
}


// ------------------------------------------------------------------------- //
// LLMPerceptionMechanism
// ------------------------------------------------------------------------- //

/// The choice of the messages each agent attends to: the `top_k` most
/// influential messages of its inbox and memory (the scoring itself is done
/// by the driver).
pub struct LLMPerceptionMechanism {
    pub top_k: usize,
    /// Rank the candidates with the language model rather than by rule.
    pub llm_perception: bool,
}

impl LLMPerceptionMechanism {
    /// A perception step that selects `top_k` messages, and at least one.
    pub fn new(top_k: usize, llm_perception: bool) -> (r: LLMPerceptionMechanism)
        ensures
            r.top_k == if top_k >= 1 {
                top_k
            } else {
                1
            },
            r.llm_perception == llm_perception,
    {
        LLMPerceptionMechanism { top_k: if top_k >= 1 { top_k } else { 1 }, llm_perception }
    }
}

// ------------------------------------------------------------------------- //
// Social contagion: applying one agent's decision
// ------------------------------------------------------------------------- //

/// Whether an agent with behavior `b`, `n_selected` selected messages and
/// (or not) some content sends a message this round: a repost needs a
/// message to forward or content of its own, a post needs content.
pub open spec fn sends(b: Behavior, n_selected: nat, has_content: bool) -> bool {
    match b {
        Behavior::Repost => n_selected > 0 || has_content,
        Behavior::Post => has_content,
        Behavior::Inactive => false,
    }
}

/// Applies a decoded contagion reply to agent `id`: emotion, attitude and
/// behavior take the values read (a value not read keeps the current one),
/// the selected messages join the memory pool, and a post or repost goes to
/// `next_outbox`, the messages delivered next round.
///
/// A repost forwards the first selected message (keeping its origin) with
/// the new content if there is one, else the forwarded text; a repost with
/// nothing selected is a new post of the content. An agent that makes a new
/// post counts as reached. The current round's inboxes and outbox are not
/// touched (rounds are synchronous). An `id` that is not an agent changes
/// nothing.
pub fn apply_contagion(
    world: &mut S3World,
    id: u64,
    selected: &Vec<Message>,
    decision: &ContagionDecision,
    now: u64,
    next_outbox: &mut Vec<Message>,
)
    requires
        old(world).wf(),
    ensures
        final(world).wf(),
        final(world).net == old(world).net,
        final(world).clock == old(world).clock,
        final(world).inbox == old(world).inbox,
        final(world).outbox == old(world).outbox,
        final(world).agents.len() == old(world).agents.len(),
        final(world).cascade_size() >= old(world).cascade_size(),
        forall|j: int|
            0 <= j < old(world).agents.len() && j != id ==> #[trigger] final(world).agents[j]
                == old(world).agents[j],
        (id as int) >= old(world).agents.len() ==> {
            &&& *final(world) == *old(world)
            &&& *final(next_outbox) == *old(next_outbox)
        },
        (id as int) < old(world).agents.len() ==> ({
            let a0 = old(world).agents[id as int];
            let a1 = final(world).agents[id as int];
            let b = match decision.behavior {
                Some(x) => x,
                None => a0.behavior,
            };
            let has_content = decision.content is Some;
            &&& a1.profile == a0.profile
            &&& a1.emotion == match decision.emotion {
                Some(x) => x,
                None => a0.emotion,
            }
            &&& a1.attitude == match decision.attitude {
                Some(x) => x,
                None => a0.attitude,
            }
            &&& a1.behavior == b
            &&& a1.memory@ == a0.memory@ + selected@
            &&& forall|j: int|
                0 <= j < final(world).reached.len() ==> #[trigger] final(world).reached[j] == (old(
                    world,
                ).reached[j] || (j == id && b == Behavior::Post && has_content))
            &&& if sends(b, selected@.len(), has_content) {
                let m = final(next_outbox)@.last();
                &&& final(next_outbox)@ == old(next_outbox)@.push(m)
                &&& m.author == id
                &&& m.round == now
                &&& if b == Behavior::Repost && selected@.len() > 0 {
                    &&& m.is_repost
                    &&& m.origin == selected@[0].origin
                    &&& m.content@ == match decision.content {
                        Some(c) => c@,
                        None => selected@[0].content@,
                    }
                } else {
                    &&& !m.is_repost
                    &&& m.origin == id
                    &&& m.content@ == decision.content->0@
                }
            } else {
                *final(next_outbox) == *old(next_outbox)
            }
        }),
{
    let n = world.agents.len();
    if id as usize >= n || id > usize::MAX as u64 {
        return;
    }
    let i = id as usize;
    match decision.emotion {
        Some(e) => {
            world.agents[i].emotion = e;
        },
        None => {},
    }
    match decision.attitude {
        Some(a) => {
            world.agents[i].attitude = a;
        },
        None => {},
    }
    let behavior = match decision.behavior {
        Some(b) => b,
        None => world.agents[i].behavior,
    };
    world.agents[i].behavior = behavior;
    let ghost mem0 = world.agents[i as int].memory@;
    for k in 0..selected.len()
        invariant
            n == world.agents.len(),
            i < n,
            world.wf(),
            world.net == old(world).net,
            world.clock == old(world).clock,
            world.inbox == old(world).inbox,
            world.outbox == old(world).outbox,
            world.reached == old(world).reached,
            forall|j: int| 0 <= j < n && j != i ==> #[trigger] world.agents[j] == old(world).agents[j],
            world.agents[i as int].profile == old(world).agents[i as int].profile,
            world.agents[i as int].emotion == match decision.emotion {
                Some(x) => x,
                None => old(world).agents[i as int].emotion,
            },
            world.agents[i as int].attitude == match decision.attitude {
                Some(x) => x,
                None => old(world).agents[i as int].attitude,
            },
            world.agents[i as int].behavior == behavior,
            world.agents[i as int].memory@ == mem0 + selected@.take(k as int),
    {
        let m = selected[k].clone();
        world.agents[i].memory.push(m);
        assert(mem0 + selected@.take(k + 1) =~= (mem0 + selected@.take(k as int)).push(
            selected@[k as int],
        ));
    }
    assert(selected@.take(selected.len() as int) =~= selected@);
    if behavior == Behavior::Repost {
        if selected.len() > 0 {
            let src = &selected[0];
            let content = match &decision.content {
                Some(c) => c.clone(),
                None => src.content.clone(),
            };
            next_outbox.push(
                Message { author: id, origin: src.origin, content, round: now, is_repost: true },
            );
        } else {
            match &decision.content {
                Some(c) => {
                    next_outbox.push(
                        Message {
                            author: id,
                            origin: id,
                            content: c.clone(),
                            round: now,
                            is_repost: false,
                        },
                    );
                },
                None => {},
            }
        }
    } else if behavior == Behavior::Post {
        match &decision.content {
            Some(c) => {
                next_outbox.push(
                    Message {
                        author: id,
                        origin: id,
                        content: c.clone(),
                        round: now,
                        is_repost: false,
                    },
                );
                world.reached.set(i, true);
                proof {
                    lemma_count_true_monotone(old(world).reached@, world.reached@);
                }
            },
            None => {},
        }
    }
}

} // verus!

verus! {

// ------------------------------------------------------------------------- //
// Social contagion: a whole round
// ------------------------------------------------------------------------- //

/// The part of an agent that a round changes: emotion, attitude, behavior
/// and memory pool.
pub open spec fn agent_view(a: AgentState) -> (Emotion, Attitude, Behavior, Seq<Message>) {
    (a.emotion, a.attitude, a.behavior, a.memory@)
}

pub open spec fn agent_views(s: Seq<AgentState>) -> Seq<(Emotion, Attitude, Behavior, Seq<Message>)> {
    s.map_values(|a: AgentState| agent_view(a))
}

/// A message as plain values: author, origin, text, round, repost flag.
pub open spec fn message_view(m: Message) -> (u64, u64, Seq<char>, u64, bool) {
    (m.author, m.origin, m.content@, m.round, m.is_repost)
}

pub open spec fn message_views(s: Seq<Message>) -> Seq<(u64, u64, Seq<char>, u64, bool)> {
    s.map_values(|m: Message| message_view(m))
}

/// The message that agent `id` sends when its behavior becomes `b`, with
/// the messages `sel` selected and the reply `d`, if any.
pub open spec fn sent_message(b: Behavior, id: u64, sel: Seq<Message>, d: ContagionDecision, now: u64) -> Option<
    (u64, u64, Seq<char>, u64, bool),
> {
    if !sends(b, sel.len(), d.content is Some) {
        None
    } else if b == Behavior::Repost && sel.len() > 0 {
        Some(
            (
                id,
                sel[0].origin,
                match d.content {
                    Some(c) => c@,
                    None => sel[0].content@,
                },
                now,
                true,
            ),
        )
    } else {
        Some((id, id, d.content->0@, now, false))
    }
}

/// The first `k` updates of a contagion round, in activation order: the
/// agents (as views), the reached flags, and the messages sent so far. The
/// `j`-th update is that of agent `order[j]` with the messages `sels[j]`
/// and the reply `decs[j]`; an id that is no agent changes nothing.
pub open spec fn round_fold(
    views: Seq<(Emotion, Attitude, Behavior, Seq<Message>)>,
    reached: Seq<bool>,
    order: Seq<u64>,
    sels: Seq<Seq<Message>>,
    decs: Seq<ContagionDecision>,
    now: u64,
    k: nat,
) -> (Seq<(Emotion, Attitude, Behavior, Seq<Message>)>, Seq<bool>, Seq<(u64, u64, Seq<char>, u64, bool)>)
    decreases k,
{
    if k == 0 {
        (views, reached, Seq::empty())
    } else {
        let (v, r, out) = round_fold(views, reached, order, sels, decs, now, (k - 1) as nat);
        let id = order[k - 1];
        if id as int >= v.len() {
            (v, r, out)
        } else {
            let a = v[id as int];
            let d = decs[k - 1];
            let sel = sels[k - 1];
            let b = match d.behavior {
                Some(x) => x,
                None => a.2,
            };
            let a1 = (
                match d.emotion {
                    Some(x) => x,
                    None => a.0,
                },
                match d.attitude {
                    Some(x) => x,
                    None => a.1,
                },
                b,
                a.3 + sel,
            );
            let r1 = if b == Behavior::Post && d.content is Some {
                r.update(id as int, true)
            } else {
                r
            };
            let out1 = match sent_message(b, id, sel, d, now) {
                Some(m) => out.push(m),
                None => out,
            };
            (v.update(id as int, a1), r1, out1)
        }
    }
}

/// The positions in the order of the updates that sent a message, in turn.
pub open spec fn sending_positions(
    views: Seq<(Emotion, Attitude, Behavior, Seq<Message>)>,
    reached: Seq<bool>,
    order: Seq<u64>,
    sels: Seq<Seq<Message>>,
    decs: Seq<ContagionDecision>,
    now: u64,
    k: nat,
) -> Seq<int>
    decreases k,
{
    if k == 0 {
        Seq::empty()
    } else {
        let p = sending_positions(views, reached, order, sels, decs, now, (k - 1) as nat);
        let (v, r, out) = round_fold(views, reached, order, sels, decs, now, (k - 1) as nat);
        let id = order[k - 1];
        if id as int >= v.len() {
            p
        } else {
            let b = match decs[k - 1].behavior {
                Some(x) => x,
                None => v[id as int].2,
            };
            if sent_message(b, id, sels[k - 1], decs[k - 1], now) is Some {
                p.push(k - 1)
            } else {
                p
            }
        }
    }
}

/// What a contagion round sends is made in that round and in activation
/// order: the `i`-th message comes from the update at position `pos[i]` of
/// the order, these positions increase, and the message's author is the
/// agent updated there and its round the current one. The agents' count
/// and the reached flags only grow.
pub proof fn lemma_round_messages(
    views: Seq<(Emotion, Attitude, Behavior, Seq<Message>)>,
    reached: Seq<bool>,
    order: Seq<u64>,
    sels: Seq<Seq<Message>>,
    decs: Seq<ContagionDecision>,
    now: u64,
    k: nat,
)
    requires
        k <= order.len(),
        reached.len() == views.len(),
    ensures
        ({
            let (v, r, out) = round_fold(views, reached, order, sels, decs, now, k);
            let pos = sending_positions(views, reached, order, sels, decs, now, k);
            &&& v.len() == views.len()
            &&& r.len() == reached.len()
            &&& forall|j: int| 0 <= j < r.len() && #[trigger] reached[j] ==> r[j]
            &&& pos.len() == out.len()
            &&& forall|i: int| 0 <= i < pos.len() ==> 0 <= #[trigger] pos[i] < k
            &&& forall|i: int, j: int| 0 <= i < j < pos.len() ==> pos[i] < pos[j]
            &&& forall|i: int| 0 <= i < out.len() ==> (#[trigger] out[i]).0 == order[pos[i]]
            &&& forall|i: int| 0 <= i < out.len() ==> (#[trigger] out[i]).3 == now
            &&& forall|i: int|
                0 <= i < out.len() && (#[trigger] out[i]).4 ==> {
                    &&& sels[pos[i]].len() > 0
                    &&& out[i].1 == sels[pos[i]][0].origin
                    &&& out[i].2 == match decs[pos[i]].content {
                        Some(c) => c@,
                        None => sels[pos[i]][0].content@,
                    }
                }
            &&& forall|i: int|
                0 <= i < out.len() && !(#[trigger] out[i]).4 ==> {
                    &&& out[i].1 == out[i].0
                    &&& decs[pos[i]].content is Some
                    &&& out[i].2 == decs[pos[i]].content->0@
                }
        }),
    decreases k,
{
    if k > 0 {
        lemma_round_messages(views, reached, order, sels, decs, now, (k - 1) as nat);
        let (v, r, out) = round_fold(views, reached, order, sels, decs, now, (k - 1) as nat);
        let pos = sending_positions(views, reached, order, sels, decs, now, (k - 1) as nat);
        let id = order[k - 1];
        if (id as int) < v.len() {
            let b = match decs[k - 1].behavior {
                Some(x) => x,
                None => v[id as int].2,
            };
            let (v1, r1, out1) = round_fold(views, reached, order, sels, decs, now, k);
            let pos1 = sending_positions(views, reached, order, sels, decs, now, k);
            assert forall|j: int| 0 <= j < r1.len() && #[trigger] reached[j] implies r1[j] by {
                assert(r[j]);
            }
            match sent_message(b, id, sels[k - 1], decs[k - 1], now) {
                Some(m) => {
                    assert(pos1 == pos.push(k - 1));
                    assert(out1 == out.push(m));
                    assert forall|i: int| 0 <= i < out1.len() implies (#[trigger] out1[i]).0 == order[pos1[i]] by {
                        if i < out.len() {
                            assert(out1[i] == out[i]);
                            assert(pos1[i] == pos[i]);
                        }
                    }
                    assert forall|i: int| 0 <= i < out1.len() implies (#[trigger] out1[i]).3 == now by {
                        if i < out.len() {
                            assert(out1[i] == out[i]);
                        }
                    }
                    assert forall|i: int| 0 <= i < out1.len() && (#[trigger] out1[i]).4 implies {
                        &&& sels[pos1[i]].len() > 0
                        &&& out1[i].1 == sels[pos1[i]][0].origin
                        &&& out1[i].2 == match decs[pos1[i]].content {
                            Some(c) => c@,
                            None => sels[pos1[i]][0].content@,
                        }
                    } by {
                        if i < out.len() {
                            assert(out1[i] == out[i]);
                            assert(pos1[i] == pos[i]);
                        }
                    }
                    assert forall|i: int| 0 <= i < out1.len() && !(#[trigger] out1[i]).4 implies {
                        &&& out1[i].1 == out1[i].0
                        &&& decs[pos1[i]].content is Some
                        &&& out1[i].2 == decs[pos1[i]].content->0@
                    } by {
                        if i < out.len() {
                            assert(out1[i] == out[i]);
                            assert(pos1[i] == pos[i]);
                        }
                    }
                    assert forall|i: int| 0 <= i < pos1.len() implies 0 <= #[trigger] pos1[i] < k by {
                        if i < pos.len() {
                            assert(pos1[i] == pos[i]);
                        }
                    }
                    assert forall|i: int, j: int| 0 <= i < j < pos1.len() implies pos1[i] < pos1[j] by {
                        assert(pos1[i] == pos[i]);
                        if j < pos.len() {
                            assert(pos1[j] == pos[j]);
                        }
                    }
                },
                None => {},
            }
        }
    }
}

/// An agent that no update of the first `k` touches keeps its view.
pub proof fn lemma_round_agent_untouched(
    views: Seq<(Emotion, Attitude, Behavior, Seq<Message>)>,
    reached: Seq<bool>,
    order: Seq<u64>,
    sels: Seq<Seq<Message>>,
    decs: Seq<ContagionDecision>,
    now: u64,
    k: nat,
    id: int,
)
    requires
        k <= order.len(),
        0 <= id < views.len(),
        forall|i: int| 0 <= i < k ==> #[trigger] order[i] as int != id,
    ensures
        round_fold(views, reached, order, sels, decs, now, k).0.len() == views.len(),
        round_fold(views, reached, order, sels, decs, now, k).0[id] == views[id],
    decreases k,
{
    if k > 0 {
        lemma_round_agent_untouched(views, reached, order, sels, decs, now, (k - 1) as nat, id);
        assert(order[k - 1] as int != id);
    }
}

/// An agent updated exactly once in a round, at position `j` of the order,
/// takes the emotion, attitude and behavior of its reply where the reply
/// gives them and keeps its own otherwise, and adds the messages selected
/// for it to its memory.
pub proof fn lemma_round_agent_once(
    views: Seq<(Emotion, Attitude, Behavior, Seq<Message>)>,
    reached: Seq<bool>,
    order: Seq<u64>,
    sels: Seq<Seq<Message>>,
    decs: Seq<ContagionDecision>,
    now: u64,
    k: nat,
    j: int,
)
    requires
        k <= order.len(),
        0 <= j < k,
        (order[j] as int) < views.len(),
        reached.len() == views.len(),
        forall|i: int| 0 <= i < k && i != j ==> #[trigger] order[i] != order[j],
    ensures
        ({
            let a = views[order[j] as int];
            let d = decs[j];
            round_fold(views, reached, order, sels, decs, now, k).0[order[j] as int] == (
                match d.emotion {
                    Some(x) => x,
                    None => a.0,
                },
                match d.attitude {
                    Some(x) => x,
                    None => a.1,
                },
                match d.behavior {
                    Some(x) => x,
                    None => a.2,
                },
                a.3 + sels[j],
            )
        }),
    decreases k,
{
    let id = order[j] as int;
    if k - 1 == j {
        assert forall|i: int| 0 <= i < j implies #[trigger] order[i] as int != id by {
            assert(order[i] != order[j]);
        }
        lemma_round_agent_untouched(views, reached, order, sels, decs, now, j as nat, id);
    } else {
        lemma_round_agent_once(views, reached, order, sels, decs, now, (k - 1) as nat, j);
        lemma_round_messages(views, reached, order, sels, decs, now, (k - 1) as nat);
        assert(order[k - 1] != order[j]);
    }
}

/// A contagion round: the agents of `order` are updated in turn, the `j`-th
/// from the messages `selected[j]` and the decoded reply `decisions[j]`,
/// each as [`apply_contagion`] does; the messages they send, in that order,
/// replace the outbox, to be delivered next round. The inboxes, the network
/// and the clock are untouched, and the profiles do not change.
pub fn contagion_round(
    world: &mut S3World,
    order: &Vec<u64>,
    selected: &Vec<Vec<Message>>,
    decisions: &Vec<ContagionDecision>,
    now: u64,
)
    requires
        old(world).wf(),
        selected.len() == order.len(),
        decisions.len() == order.len(),
    ensures
        ({
            let (v, r, out) = round_fold(
                agent_views(old(world).agents@),
                old(world).reached@,
                order@,
                selected@.map_values(|s: Vec<Message>| s@),
                decisions@,
                now,
                order.len() as nat,
            );
            &&& final(world).wf()
            &&& final(world).net == old(world).net
            &&& final(world).clock == old(world).clock
            &&& final(world).inbox == old(world).inbox
            &&& final(world).agents.len() == old(world).agents.len()
            &&& forall|j: int|
                0 <= j < final(world).agents.len() ==> (#[trigger] final(world).agents[j]).profile
                    == old(world).agents[j].profile
            &&& agent_views(final(world).agents@) == v
            &&& final(world).reached@ == r
            &&& message_views(final(world).outbox@) == out
            &&& forall|j: int|
                0 <= j < old(world).reached.len() && #[trigger] old(world).reached[j]
                    ==> final(world).reached[j]
            &&& final(world).cascade_size() >= old(world).cascade_size()
        }),
        forall|j: int|
            #![trigger order@[j]]
            0 <= j < order.len() && (order@[j] as int) < old(world).agents.len() && (forall|i: int|
                0 <= i < order.len() && i != j ==> #[trigger] order@[i] != order@[j]) ==> {
                let a0 = old(world).agents[order@[j] as int];
                let a1 = final(world).agents[order@[j] as int];
                let d = decisions@[j];
                &&& a1.emotion == match d.emotion {
                    Some(x) => x,
                    None => a0.emotion,
                }
                &&& a1.attitude == match d.attitude {
                    Some(x) => x,
                    None => a0.attitude,
                }
                &&& a1.behavior == match d.behavior {
                    Some(x) => x,
                    None => a0.behavior,
                }
                &&& a1.memory@ == a0.memory@ + selected@[j]@
            },
        forall|v: int|
            0 <= v < old(world).agents.len() && (forall|i: int|
                0 <= i < order.len() ==> #[trigger] order@[i] as int != v) ==> agent_view(
                #[trigger] final(world).agents[v],
            ) == agent_view(old(world).agents[v]),
{
    let ghost views0 = agent_views(world.agents@);
    let ghost r0 = world.reached@;
    let ghost sels = selected@.map_values(|s: Vec<Message>| s@);
    let mut next: Vec<Message> = Vec::new();
    for k in 0..order.len()
        invariant
            world.wf(),
            selected.len() == order.len(),
            decisions.len() == order.len(),
            sels == selected@.map_values(|s: Vec<Message>| s@),
            world.net == old(world).net,
            world.clock == old(world).clock,
            world.inbox == old(world).inbox,
            world.outbox == old(world).outbox,
            world.agents.len() == old(world).agents.len(),
            views0 == agent_views(old(world).agents@),
            r0 == old(world).reached@,
            forall|j: int|
                0 <= j < world.agents.len() ==> (#[trigger] world.agents[j]).profile
                    == old(world).agents[j].profile,
            ({
                let (v, r, out) = round_fold(views0, r0, order@, sels, decisions@, now, k as nat);
                &&& agent_views(world.agents@) == v
                &&& world.reached@ == r
                &&& message_views(next@) == out
            }),
            world.cascade_size() >= old(world).cascade_size(),
    {
        let ghost a_before = world.agents@;
        let ghost n_before = next@;
        let ghost w_before = *world;
        let id = order[k];
        apply_contagion(world, id, &selected[k], &decisions[k], now, &mut next);
        proof {
            let (v, r, out) = round_fold(views0, r0, order@, sels, decisions@, now, k as nat);
            let (v1, r1, out1) = round_fold(views0, r0, order@, sels, decisions@, now, (k + 1) as nat);
            assert(sels[k as int] == selected[k as int]@);
            assert(v.len() == a_before.len());
            if (id as int) < a_before.len() {
                let a = v[id as int];
                assert(a == agent_view(a_before[id as int]));
                assert(agent_views(world.agents@) =~= v1) by {
                    assert forall|j: int| 0 <= j < v1.len() implies agent_views(world.agents@)[j] == v1[j] by {
                        if j != id as int {
                            assert(world.agents[j] == a_before[j]);
                        }
                    }
                }
                assert(world.reached@ =~= r1);
                let b = match decisions[k as int].behavior {
                    Some(x) => x,
                    None => a.2,
                };
                match sent_message(b, id, sels[k as int], decisions[k as int], now) {
                    Some(m) => {
                        assert(message_views(next@) =~= message_views(n_before).push(
                            message_view(next@.last()),
                        ));
                        assert(message_views(next@) =~= out1);
                    },
                    None => {
                        assert(next@ == n_before);
                    },
                }
            } else {
                assert(world.agents@ =~= a_before);
            }
        }
    }
    proof {
        let kk = order.len() as nat;
        lemma_round_messages(views0, r0, order@, sels, decisions@, now, kk);
        assert forall|j: int|
            #![trigger order@[j]]
            0 <= j < order.len() && (order@[j] as int) < old(world).agents.len() && (forall|i: int|
                0 <= i < order.len() && i != j ==> #[trigger] order@[i] != order@[j]) implies {
                let a0 = old(world).agents[order@[j] as int];
                let a1 = world.agents[order@[j] as int];
                let d = decisions@[j];
                &&& a1.emotion == match d.emotion {
                    Some(x) => x,
                    None => a0.emotion,
                }
                &&& a1.attitude == match d.attitude {
                    Some(x) => x,
                    None => a0.attitude,
                }
                &&& a1.behavior == match d.behavior {
                    Some(x) => x,
                    None => a0.behavior,
                }
                &&& a1.memory@ == a0.memory@ + selected@[j]@
            } by {
            lemma_round_agent_once(views0, r0, order@, sels, decisions@, now, kk, j);
            let id = order@[j] as int;
            assert(agent_views(world.agents@)[id] == agent_view(world.agents[id]));
            assert(views0[id] == agent_view(old(world).agents[id]));
            assert(sels[j] == selected@[j]@);
        }
        assert forall|v: int|
            0 <= v < old(world).agents.len() && (forall|i: int|
                0 <= i < order.len() ==> #[trigger] order@[i] as int != v) implies agent_view(
                #[trigger] world.agents[v],
            ) == agent_view(old(world).agents[v]) by {
            lemma_round_agent_untouched(views0, r0, order@, sels, decisions@, now, kk, v);
            assert(agent_views(world.agents@)[v] == agent_view(world.agents[v]));
        }
    }
    world.outbox = next;
}

} // verus!
