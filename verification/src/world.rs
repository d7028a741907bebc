//! The world of the simulation: the three propagated quantities (emotion,
//! attitude, behavior), the agents' profiles, the messages, the directed
//! follow-graph and the world state that the mechanisms update.
//!
//! Follow convention: an arc `a -> b` means "a follows b"; a post by `b`
//! reaches the followers of `b`, the nodes `a` with an arc `a -> b`.

use vstd::prelude::*;

use crate::network::FollowGraph;
use crate::text::{
    chars_of, decimal, decimal_chars, is_word, lemma_normalized_plain, normalize, normalized,
    push_chars,
};

verus! {

// ------------------------------------------------------------------------- //
// Words read from a reply
// ------------------------------------------------------------------------- //

/// A quantity that can be read from one word of a reply.
pub trait Keyword: Sized {
    /// The value a word denotes, if any.
    spec fn word_meaning(w: Seq<char>) -> Option<Self>;

    /// Reads a word.
    fn from_word(w: &Vec<char>) -> (r: Option<Self>)
        ensures
            r == Self::word_meaning(w@),
    ;
}

// ------------------------------------------------------------------------- //
// Emotion
// ------------------------------------------------------------------------- //

/// Emotion (a three-state chain): calm / moderate / intense.
#[derive(Clone, Copy, PartialEq, Eq, Debug, Structural)]
pub enum Emotion {
    Calm,
    Moderate,
    Intense,
}

impl Emotion {
    pub open spec fn spec_label(self) -> Seq<char> {
        match self {
            Emotion::Calm => "calm"@,
            Emotion::Moderate => "moderate"@,
            Emotion::Intense => "intense"@,
        }
    }

    /// Short label (prompts, output).
    pub fn label(&self) -> (r: &'static str)
        ensures
            r@ == self.spec_label(),
    {
        match self {
            Emotion::Calm => "calm",
            Emotion::Moderate => "moderate",
            Emotion::Intense => "intense",
        }
    }

    /// Reads an emotion from a token of a reply; an unknown word gives `None`.
    pub fn parse(s: &str) -> (r: Option<Emotion>)
        ensures
            r == emotion_of(s@),
    {
        Self::from_word(&chars_of(s))
    }
}

pub open spec fn emotion_of(s: Seq<char>) -> Option<Emotion> {
    let w = normalized(s);
    if w == "calm"@ {
        Some(Emotion::Calm)
    } else if w == "moderate"@ {
        Some(Emotion::Moderate)
    } else if w == "intense"@ {
        Some(Emotion::Intense)
    } else {
        None
    }
}

impl Keyword for Emotion {
    open spec fn word_meaning(w: Seq<char>) -> Option<Emotion> {
        emotion_of(w)
    }

    fn from_word(w: &Vec<char>) -> (r: Option<Emotion>) {
        let n = normalize(w);
        if is_word(&n, "calm") {
            Some(Emotion::Calm)
        } else if is_word(&n, "moderate") {
            Some(Emotion::Moderate)
        } else if is_word(&n, "intense") {
            Some(Emotion::Intense)
        } else {
            None
        }
    }
}

// ------------------------------------------------------------------------- //
// Attitude
// ------------------------------------------------------------------------- //

/// Attitude (a two-state chain): negative / positive.
#[derive(Clone, Copy, PartialEq, Eq, Debug, Structural)]
pub enum Attitude {
    Negative,
    Positive,
}

impl Attitude {
    pub open spec fn spec_label(self) -> Seq<char> {
        match self {
            Attitude::Negative => "negative"@,
            Attitude::Positive => "positive"@,
        }
    }

    /// Short label (prompts, output).
    pub fn label(&self) -> (r: &'static str)
        ensures
            r@ == self.spec_label(),
    {
        match self {
            Attitude::Negative => "negative",
            Attitude::Positive => "positive",
        }
    }

    /// Reads an attitude from a token of a reply; an unknown word gives `None`.
    pub fn parse(s: &str) -> (r: Option<Attitude>)
        ensures
            r == attitude_of(s@),
    {
        Self::from_word(&chars_of(s))
    }
}

pub open spec fn attitude_of(s: Seq<char>) -> Option<Attitude> {
    let w = normalized(s);
    if w == "negative"@ || w == "neg"@ {
        Some(Attitude::Negative)
    } else if w == "positive"@ || w == "pos"@ {
        Some(Attitude::Positive)
    } else {
        None
    }
}

impl Keyword for Attitude {
    open spec fn word_meaning(w: Seq<char>) -> Option<Attitude> {
        attitude_of(w)
    }

    fn from_word(w: &Vec<char>) -> (r: Option<Attitude>) {
        let n = normalize(w);
        if is_word(&n, "negative") || is_word(&n, "neg") {
            Some(Attitude::Negative)
        } else if is_word(&n, "positive") || is_word(&n, "pos") {
            Some(Attitude::Positive)
        } else {
            None
        }
    }
}

// ------------------------------------------------------------------------- //
// Behavior
// ------------------------------------------------------------------------- //

/// Interaction behavior: repost / post / inactive.
#[derive(Clone, Copy, PartialEq, Eq, Debug, Structural)]
pub enum Behavior {
    Repost,
    Post,
    Inactive,
}

impl Behavior {
    pub open spec fn spec_label(self) -> Seq<char> {
        match self {
            Behavior::Repost => "repost"@,
            Behavior::Post => "post"@,
            Behavior::Inactive => "inactive"@,
        }
    }

    pub open spec fn spec_is_active(self) -> bool {
        self is Repost || self is Post
    }

    /// Short label (prompts, output).
    pub fn label(&self) -> (r: &'static str)
        ensures
            r@ == self.spec_label(),
    {
        match self {
            Behavior::Repost => "repost",
            Behavior::Post => "post",
            Behavior::Inactive => "inactive",
        }
    }

    /// Reads a behavior from a token of a reply; an unknown word gives `None`.
    pub fn parse(s: &str) -> (r: Option<Behavior>)
        ensures
            r == behavior_of(s@),
    {
        Self::from_word(&chars_of(s))
    }

    /// `true` for repost and post, the behaviors that send information out.
    pub fn is_active(&self) -> (r: bool)
        ensures
            r == self.spec_is_active(),
    {
        matches!(self, Behavior::Repost | Behavior::Post)
    }
}

pub open spec fn behavior_of(s: Seq<char>) -> Option<Behavior> {
    let w = normalized(s);
    if w == "repost"@ || w == "share"@ || w == "retweet"@ {
        Some(Behavior::Repost)
    } else if w == "post"@ || w == "tweet"@ {
        Some(Behavior::Post)
    } else if w == "inactive"@ || w == "none"@ || w == "idle"@ {
        Some(Behavior::Inactive)
    } else {
        None
    }
}

impl Keyword for Behavior {
    open spec fn word_meaning(w: Seq<char>) -> Option<Behavior> {
        behavior_of(w)
    }

    fn from_word(w: &Vec<char>) -> (r: Option<Behavior>) {
        let n = normalize(w);
        if is_word(&n, "repost") || is_word(&n, "share") || is_word(&n, "retweet") {
            Some(Behavior::Repost)
        } else if is_word(&n, "post") || is_word(&n, "tweet") {
            Some(Behavior::Post)
        } else if is_word(&n, "inactive") || is_word(&n, "none") || is_word(&n, "idle") {
            Some(Behavior::Inactive)
        } else {
            None
        }
    }
}

} // verus!

verus! {

/// Reading back the label of an emotion gives that emotion.
pub proof fn lemma_emotion_label_roundtrip(e: Emotion)
    ensures
        emotion_of(e.spec_label()) == Some(e),
{
    reveal_strlit("calm");
    reveal_strlit("moderate");
    reveal_strlit("intense");
    lemma_normalized_plain(e.spec_label());
}

/// Reading back the label of an attitude gives that attitude.
pub proof fn lemma_attitude_label_roundtrip(a: Attitude)
    ensures
        attitude_of(a.spec_label()) == Some(a),
{
    reveal_strlit("negative");
    reveal_strlit("neg");
    reveal_strlit("positive");
    reveal_strlit("pos");
    lemma_normalized_plain(a.spec_label());
}

/// Reading back the label of a behavior gives that behavior.
pub proof fn lemma_behavior_label_roundtrip(b: Behavior)
    ensures
        behavior_of(b.spec_label()) == Some(b),
{
    reveal_strlit("repost");
    reveal_strlit("share");
    reveal_strlit("retweet");
    reveal_strlit("post");
    reveal_strlit("tweet");
    reveal_strlit("inactive");
    reveal_strlit("none");
    reveal_strlit("idle");
    lemma_normalized_plain(b.spec_label());
}

} // verus!

verus! {

// ------------------------------------------------------------------------- //
// Demographic profile
// ------------------------------------------------------------------------- //

/// Demographic attributes (gender, age, occupation), fixed at initialisation.
#[derive(Clone, Debug)]
pub struct Profile {
    pub gender: String,
    pub age: u8,
    pub occupation: String,
}

impl Profile {
    pub open spec fn spec_describe(self) -> Seq<char> {
        "a "@ + decimal(self.age as nat) + "-year-old "@ + self.gender@ + " "@ + self.occupation@
    }

    /// A short description for the prompts: `a {age}-year-old {gender} {occupation}`.
    pub fn describe(&self) -> (r: String)
        ensures
            r@ == self.spec_describe(),
    {
        let mut s = String::new();
        s.append("a ");
        push_chars(&mut s, &decimal_chars(self.age as u64));
        s.append("-year-old ");
        s.append(self.gender.as_str());
        s.append(" ");
        s.append(self.occupation.as_str());
        s
    }
}

} // verus!

verus! {

// ------------------------------------------------------------------------- //
// Messages
// ------------------------------------------------------------------------- //

/// One message on the network (a post or a repost).
#[derive(Debug)]
pub struct Message {
    /// The agent that sent it.
    pub author: u64,
    /// The agent whose post started it (kept along reposts).
    pub origin: u64,
    /// The text.
    pub content: String,
    /// The round in which it was made.
    pub round: u64,
    /// A repost rather than a new post.
    pub is_repost: bool,
}

impl Clone for Message {
    fn clone(&self) -> (r: Self)
        ensures
            r == *self,
    {
        Message {
            author: self.author,
            origin: self.origin,
            content: self.content.clone(),
            round: self.round,
            is_repost: self.is_repost,
        }
    }
}

// ------------------------------------------------------------------------- //
// Agents
// ------------------------------------------------------------------------- //

/// The state of one agent (a fixed node).
#[derive(Debug)]
pub struct AgentState {
    pub profile: Profile,
    pub emotion: Emotion,
    pub attitude: Attitude,
    pub behavior: Behavior,
    /// The memory pool: the messages selected in earlier rounds.
    pub memory: Vec<Message>,
}

impl AgentState {
    /// An agent with the given profile and initial emotion and attitude; it
    /// has not acted yet and remembers nothing.
    pub fn new(profile: Profile, emotion: Emotion, attitude: Attitude) -> (r: AgentState)
        ensures
            r.profile == profile,
            r.emotion == emotion,
            r.attitude == attitude,
            r.behavior == Behavior::Inactive,
            r.memory@.len() == 0,
    {
        AgentState { profile, emotion, attitude, behavior: Behavior::Inactive, memory: Vec::new() }
    }
}

// ------------------------------------------------------------------------- //
// World state
// ------------------------------------------------------------------------- //

/// The round clock: the current round and the number of rounds to run.
#[derive(Clone, Copy, Debug, PartialEq, Eq, Structural)]
pub struct RoundClock {
    pub t: u64,
    pub max_rounds: u64,
}

/// The world state. Agent `i` is `agents[i]`, and its inbox is `inbox[i]`.
pub struct S3World {
    pub clock: RoundClock,
    /// The follow-graph (arc `a -> b`: a follows b).
    pub net: FollowGraph,
    pub agents: Vec<AgentState>,
    /// The messages delivered in the current round.
    pub inbox: Vec<Vec<Message>>,
    /// The messages to deliver at the start of the next round.
    pub outbox: Vec<Message>,
    /// `reached[i]`: some message has reached agent `i` so far (the
    /// information cascade).
    pub reached: Vec<bool>,
}

/// The number of `true` entries.
pub open spec fn count_true(s: Seq<bool>) -> nat
    decreases s.len(),
{
    if s.len() == 0 {
        0
    } else {
        count_true(s.drop_last()) + if s.last() {
            1nat
        } else {
            0nat
        }
    }
}

/// Setting entries to `true` never lowers the count.
pub proof fn lemma_count_true_monotone(a: Seq<bool>, b: Seq<bool>)
    requires
        a.len() == b.len(),
        forall|i: int| 0 <= i < a.len() && #[trigger] a[i] ==> b[i],
    ensures
        count_true(a) <= count_true(b),
    decreases a.len(),
{
    if a.len() > 0 {
        lemma_count_true_monotone(a.drop_last(), b.drop_last());
    }
}

pub proof fn lemma_count_true_bound(a: Seq<bool>)
    ensures
        count_true(a) <= a.len(),
    decreases a.len(),
{
    if a.len() > 0 {
        lemma_count_true_bound(a.drop_last());
    }
}

/// A world whose reached flags only grew has a cascade at least as large.
pub proof fn lemma_cascade_grows(w0: S3World, w1: S3World)
    requires
        w0.reached.len() == w1.reached.len(),
        forall|i: int| 0 <= i < w0.reached.len() && #[trigger] w0.reached[i] ==> w1.reached[i],
    ensures
        w1.cascade_size() >= w0.cascade_size(),
{
    lemma_count_true_monotone(w0.reached@, w1.reached@);
}

/// The cascade across a run: when the reached flags start as the first
/// `min(k, n)` of `n` agents and only grow from round to round, the cascade
/// size starts at `min(k, n)` and never decreases.
pub proof fn lemma_cascade_history(hist: Seq<Seq<bool>>, n: nat, k: nat)
    requires
        hist.len() > 0,
        hist[0].len() == n,
        forall|j: int| 0 <= j < n ==> #[trigger] hist[0][j] == (j < k),
        forall|t: int|
            0 <= t < hist.len() - 1 ==> (#[trigger] hist[t]).len() == hist[t + 1].len() && forall|j: int|
                0 <= j < hist[t].len() && hist[t][j] ==> hist[t + 1][j],
    ensures
        count_true(hist[0]) == if k < n {
            k
        } else {
            n
        },
        forall|t1: int, t2: int|
            0 <= t1 <= t2 < hist.len() ==> count_true(#[trigger] hist[t1]) <= count_true(
                #[trigger] hist[t2],
            ),
{
    let m = if k < n {
        k
    } else {
        n
    };
    crate::simulation::lemma_count_prefix(hist[0], m as int);
    assert forall|t1: int, t2: int|
        0 <= t1 <= t2 < hist.len() implies count_true(#[trigger] hist[t1]) <= count_true(
            #[trigger] hist[t2],
        ) by {
        lemma_flags_grow(hist, t1, t2);
    }
}

proof fn lemma_flags_grow(hist: Seq<Seq<bool>>, t1: int, t2: int)
    requires
        0 <= t1 <= t2 < hist.len(),
        forall|t: int|
            0 <= t < hist.len() - 1 ==> (#[trigger] hist[t]).len() == hist[t + 1].len() && forall|j: int|
                0 <= j < hist[t].len() && hist[t][j] ==> hist[t + 1][j],
    ensures
        hist[t1].len() == hist[t2].len(),
        forall|j: int| 0 <= j < hist[t1].len() && #[trigger] hist[t1][j] ==> hist[t2][j],
        count_true(hist[t1]) <= count_true(hist[t2]),
    decreases t2 - t1,
{
    if t1 < t2 {
        lemma_flags_grow(hist, t1, t2 - 1);
        assert(hist[t2 - 1].len() == hist[t2].len());
        assert forall|j: int| 0 <= j < hist[t1].len() && #[trigger] hist[t1][j] implies hist[t2][j] by {
            assert(hist[t2 - 1][j]);
        }
    }
    lemma_count_true_monotone(hist[t1], hist[t2]);
}

impl S3World {
    /// The sizes agree and the graph is well formed.
    pub open spec fn wf(&self) -> bool {
        &&& self.net.wf()
        &&& self.agents.len() == self.net.node_count()
        &&& self.inbox.len() == self.agents.len()
        &&& self.reached.len() == self.agents.len()
    }

    /// The information cascade: the number of agents reached so far.
    pub open spec fn cascade_size(&self) -> nat {
        count_true(self.reached@)
    }

    /// Assembles a world from a graph and the agents `0..n`; inboxes and
    /// outbox start empty and no agent is reached yet.
    pub fn new(net: FollowGraph, agents: Vec<AgentState>, rounds: u64) -> (w: S3World)
        requires
            net.wf(),
            agents.len() == net.node_count(),
        ensures
            w.wf(),
            w.net == net,
            w.agents == agents,
            w.clock == (RoundClock { t: 0, max_rounds: rounds }),
            forall|i: int| 0 <= i < w.inbox.len() ==> (#[trigger] w.inbox[i])@.len() == 0,
            w.outbox@.len() == 0,
            forall|i: int| 0 <= i < w.reached.len() ==> !(#[trigger] w.reached[i]),
    {
        let n = agents.len();
        let mut inbox: Vec<Vec<Message>> = Vec::new();
        let mut reached: Vec<bool> = Vec::new();
        for i in 0..n
            invariant
                inbox.len() == i,
                reached.len() == i,
                forall|j: int| 0 <= j < i ==> (#[trigger] inbox[j])@.len() == 0,
                forall|j: int| 0 <= j < i ==> !(#[trigger] reached[j]),
        {
            inbox.push(Vec::new());
            reached.push(false);
        }
        S3World {
            clock: RoundClock { t: 0, max_rounds: rounds },
            net,
            agents,
            inbox,
            outbox: Vec::new(),
            reached,
        }
    }

    /// The population size N.
    pub fn n(&self) -> (r: usize)
        ensures
            r == self.agents.len(),
    {
        self.agents.len()
    }

    /// The followers of `author`, the agents that receive its posts, in
    /// increasing order.
    pub fn followers(&self, author: u64) -> (r: Vec<u64>)
        ensures
            r@ == self.net.spec_followers(author),
    {
        self.net.in_neighbors(author)
    }

    /// The agent ids `0..n`, in increasing order.
    pub fn agent_ids(&self) -> (r: Vec<u64>)
        ensures
            r@.len() == self.agents.len(),
            forall|i: int| 0 <= i < r@.len() ==> r@[i] == i,
    {
        let mut r: Vec<u64> = Vec::new();
        for i in 0..self.agents.len()
            invariant
                r@.len() == i,
                forall|j: int| 0 <= j < i ==> r@[j] == j,
        {
            r.push(i as u64);
        }
        r
    }

    /// The information-cascade size: how many agents have been reached.
    pub fn cascade_size_exec(&self) -> (r: usize)
        ensures
            r == self.cascade_size(),
    {
        let mut c: usize = 0;
        for i in 0..self.reached.len()
            invariant
                c == count_true(self.reached@.take(i as int)),
                c <= i,
        {
            proof {
                assert(self.reached@.take(i + 1).drop_last() =~= self.reached@.take(i as int));
            }
            if self.reached[i] {
                c += 1;
            }
        }
        assert(self.reached@.take(self.reached.len() as int) =~= self.reached@);
        c
    }
}

} // verus!
