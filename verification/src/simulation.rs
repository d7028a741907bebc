//! World initialisation: the agents' initial attributes from the random
//! draws of the driver, and the seeding of the first posts.

use vstd::prelude::*;

use crate::text::push_char;
use crate::world::{count_true, lemma_count_true_monotone, AgentState, Attitude, Behavior, Emotion, Message, Profile, S3World};

verus! {

/// The topic under discussion in a synthetic run.
pub const DEFAULT_TOPIC: &'static str = "nuclear_wastewater_release";

/// A topic as text: underscores become spaces.
pub open spec fn topic_text(t: Seq<char>) -> Seq<char> {
    t.map_values(|c: char| if c == '_' { ' ' } else { c })
}

/// `topic.replace('_', " ")`.
pub fn topic_words(topic: &str) -> (r: String)
    ensures
        r@ == topic_text(topic@),
{
    let v = crate::text::chars_of(topic);
    let mut r = String::new();
    for i in 0..v.len()
        invariant
            v@ == topic@,
            r@ == topic_text(v@.take(i as int)),
    {
        let c = v[i];
        push_char(&mut r, if c == '_' { ' ' } else { c });
        assert(topic_text(v@.take(i + 1)) =~= topic_text(v@.take(i as int)).push(
            if c == '_' {
                ' '
            } else {
                c
            },
        ));
    }
    assert(v@.take(v.len() as int) =~= v@);
    r
}

/// The text of a seed post.
pub open spec fn seed_text() -> Seq<char> {
    "Sharing my view on "@ + topic_text(DEFAULT_TOPIC@) + "."@
}

/// The genders assigned to the agents (by a uniform draw).
pub open spec fn spec_gender(draw: int) -> Seq<char> {
    if draw == 0 {
        "man"@
    } else {
        "woman"@
    }
}

/// The occupations assigned to the agents, in turn by agent index.
pub open spec fn spec_occupation(idx: int) -> Seq<char> {
    let r = idx % 6;
    if r == 0 {
        "teacher"@
    } else if r == 1 {
        "engineer"@
    } else if r == 2 {
        "student"@
    } else if r == 3 {
        "nurse"@
    } else if r == 4 {
        "shop owner"@
    } else {
        "office worker"@
    }
}

/// The profile of agent `idx`: the gender drawn (`gender_draw` in `0..2`),
/// the age `18 + age_draw` (`age_draw` in `0..50`), and the occupation that
/// the index gives in turn.
pub fn initial_profile(idx: usize, gender_draw: usize, age_draw: u8) -> (p: Profile)
    requires
        gender_draw < 2,
        age_draw < 50,
    ensures
        p.gender@ == spec_gender(gender_draw as int),
        p.age == 18 + age_draw,
        p.occupation@ == spec_occupation(idx as int),
{
    let gender = if gender_draw == 0 {
        String::from_str("man")
    } else {
        String::from_str("woman")
    };
    let r = idx % 6;
    let occupation = if r == 0 {
        String::from_str("teacher")
    } else if r == 1 {
        String::from_str("engineer")
    } else if r == 2 {
        String::from_str("student")
    } else if r == 3 {
        String::from_str("nurse")
    } else if r == 4 {
        String::from_str("shop owner")
    } else {
        String::from_str("office worker")
    };
    Profile { gender, age: 18 + age_draw, occupation }
}

/// The initial emotion from a uniform draw in `0..3`.
pub fn initial_emotion(draw: u8) -> (e: Emotion)
    ensures
        e == if draw == 0 {
            Emotion::Calm
        } else if draw == 1 {
            Emotion::Moderate
        } else {
            Emotion::Intense
        },
{
    if draw == 0 {
        Emotion::Calm
    } else if draw == 1 {
        Emotion::Moderate
    } else {
        Emotion::Intense
    }
}

/// The initial attitude from a fair coin.
pub fn initial_attitude(positive: bool) -> (a: Attitude)
    ensures
        a == if positive {
            Attitude::Positive
        } else {
            Attitude::Negative
        },
{
    if positive {
        Attitude::Positive
    } else {
        Attitude::Negative
    }
}

/// A sequence whose first `k` entries are `true` and the rest `false` counts `k`.
pub proof fn lemma_count_prefix(s: Seq<bool>, k: int)
    requires
        0 <= k <= s.len(),
        forall|j: int| 0 <= j < s.len() ==> #[trigger] s[j] == (j < k),
    ensures
        count_true(s) == k,
    decreases s.len(),
{
    if s.len() > 0 {
        if k == s.len() {
            lemma_count_prefix(s.drop_last(), k - 1);
        } else {
            lemma_count_prefix(s.drop_last(), k);
        }
    }
}

/// Seeds the first posts: the first `count` agents (at most all of them)
/// post the seed text at round 0, into the outbox, and count as reached.
/// From a world where nobody was reached, the cascade then has exactly the
/// seeded agents.
pub fn seed_posters(world: &mut S3World, count: usize)
    requires
        old(world).wf(),
    ensures
        final(world).wf(),
        final(world).net == old(world).net,
        final(world).clock == old(world).clock,
        final(world).inbox == old(world).inbox,
        final(world).agents.len() == old(world).agents.len(),
        ({
            let k = if count < old(world).agents.len() {
                count as int
            } else {
                old(world).agents.len() as int
            };
            &&& final(world).outbox@.len() == old(world).outbox@.len() + k
            &&& final(world).outbox@.take(old(world).outbox@.len() as int) == old(world).outbox@
            &&& forall|j: int|
                0 <= j < k ==> {
                    let m = #[trigger] final(world).outbox@[old(world).outbox@.len() + j];
                    &&& m.author == j
                    &&& m.origin == j
                    &&& m.content@ == seed_text()
                    &&& m.round == 0
                    &&& !m.is_repost
                }
            &&& forall|j: int|
                0 <= j < final(world).agents.len() ==> {
                    let a0 = old(world).agents[j];
                    let a1 = #[trigger] final(world).agents[j];
                    &&& a1.profile == a0.profile
                    &&& a1.emotion == a0.emotion
                    &&& a1.attitude == a0.attitude
                    &&& a1.memory == a0.memory
                    &&& a1.behavior == if j < k {
                        Behavior::Post
                    } else {
                        a0.behavior
                    }
                }
            &&& forall|j: int|
                0 <= j < final(world).reached.len() ==> #[trigger] final(world).reached[j] == (old(
                    world,
                ).reached[j] || j < k)
            &&& (forall|j: int| 0 <= j < old(world).reached.len() ==> !old(world).reached[j])
                ==> final(world).cascade_size() == k
        }),
        final(world).cascade_size() >= old(world).cascade_size(),
{
    let n = world.agents.len();
    let k = if count < n {
        count
    } else {
        n
    };
    let topic = topic_words(DEFAULT_TOPIC);
    let mut text = String::from_str("Sharing my view on ");
    text.append(topic.as_str());
    text.append(".");
    let ghost out0 = world.outbox@;
    for j in 0..k
        invariant
            n == world.agents.len(),
            k <= n,
            world.wf(),
            world.net == old(world).net,
            world.clock == old(world).clock,
            world.inbox == old(world).inbox,
            text@ == seed_text(),
            out0 == old(world).outbox@,
            world.outbox@.len() == out0.len() + j,
            world.outbox@.take(out0.len() as int) == out0,
            forall|p: int|
                0 <= p < j ==> {
                    let m = #[trigger] world.outbox@[out0.len() + p];
                    &&& m.author == p
                    &&& m.origin == p
                    &&& m.content@ == seed_text()
                    &&& m.round == 0
                    &&& !m.is_repost
                },
            forall|p: int|
                0 <= p < n ==> {
                    let a0 = old(world).agents[p];
                    let a1 = #[trigger] world.agents[p];
                    &&& a1.profile == a0.profile
                    &&& a1.emotion == a0.emotion
                    &&& a1.attitude == a0.attitude
                    &&& a1.memory == a0.memory
                    &&& a1.behavior == if p < j {
                        Behavior::Post
                    } else {
                        a0.behavior
                    }
                },
            forall|p: int|
                0 <= p < n ==> #[trigger] world.reached[p] == (old(world).reached[p] || p < j),
    {
        world.agents[j].behavior = Behavior::Post;
        let ghost before = world.outbox@;
        world.outbox.push(
            Message {
                author: j as u64,
                origin: j as u64,
                content: text.clone(),
                round: 0,
                is_repost: false,
            },
        );
        assert(world.outbox@.take(out0.len() as int) =~= before.take(out0.len() as int));
        world.reached.set(j, true);
    }
    proof {
        if forall|p: int| 0 <= p < old(world).reached.len() ==> !old(world).reached[p] {
            lemma_count_prefix(world.reached@, k as int);
        }
        lemma_count_true_monotone(old(world).reached@, world.reached@);
    }
}

} // verus!
