//! Population-level counts of a round: how many agents hold a positive
//! attitude, each emotion, and an active behavior. The fractions of the
//! metrics are these counts over the population size.

use vstd::prelude::*;

use crate::world::{AgentState, Attitude, Emotion};

verus! {

/// The number of agents of `s` that satisfy `p`.
pub open spec fn count_agents(s: Seq<AgentState>, p: spec_fn(AgentState) -> bool) -> nat
    decreases s.len(),
{
    if s.len() == 0 {
        0
    } else {
        count_agents(s.drop_last(), p) + if p(s.last()) {
            1nat
        } else {
            0nat
        }
    }
}

pub open spec fn is_positive(a: AgentState) -> bool {
    a.attitude == Attitude::Positive
}

pub open spec fn is_calm(a: AgentState) -> bool {
    a.emotion == Emotion::Calm
}

pub open spec fn is_moderate(a: AgentState) -> bool {
    a.emotion == Emotion::Moderate
}

pub open spec fn is_intense(a: AgentState) -> bool {
    a.emotion == Emotion::Intense
}

pub open spec fn is_active_agent(a: AgentState) -> bool {
    a.behavior.spec_is_active()
}

/// The counts behind one row of population metrics.
#[derive(Clone, Copy, Debug, PartialEq, Eq, Structural)]
pub struct PopulationCounts {
    /// The population size N.
    pub n: usize,
    /// Agents with a positive attitude.
    pub positive: usize,
    pub calm: usize,
    pub moderate: usize,
    pub intense: usize,
    /// Agents whose behavior is repost or post.
    pub active: usize,
}

/// Counting never exceeds the population, and the three emotions partition it.
pub proof fn lemma_counts(s: Seq<AgentState>)
    ensures
        count_agents(s, |a: AgentState| is_positive(a)) <= s.len(),
        count_agents(s, |a: AgentState| is_active_agent(a)) <= s.len(),
        count_agents(s, |a: AgentState| is_calm(a)) + count_agents(s, |a: AgentState| is_moderate(a))
            + count_agents(s, |a: AgentState| is_intense(a)) == s.len(),
    decreases s.len(),
{
    if s.len() > 0 {
        lemma_counts(s.drop_last());
    }
}

/// Counts the agents by attitude, emotion and behavior. The three emotion
/// counts add up to N, and every count is at most N.
pub fn population_counts(agents: &Vec<AgentState>) -> (c: PopulationCounts)
    ensures
        c.n == agents.len(),
        c.positive == count_agents(agents@, |a: AgentState| is_positive(a)),
        c.calm == count_agents(agents@, |a: AgentState| is_calm(a)),
        c.moderate == count_agents(agents@, |a: AgentState| is_moderate(a)),
        c.intense == count_agents(agents@, |a: AgentState| is_intense(a)),
        c.active == count_agents(agents@, |a: AgentState| is_active_agent(a)),
        c.calm + c.moderate + c.intense == c.n,
        c.positive <= c.n,
        c.active <= c.n,
{
    let mut c = PopulationCounts { n: agents.len(), positive: 0, calm: 0, moderate: 0, intense: 0, active: 0 };
    for i in 0..agents.len()
        invariant
            c.n == agents.len(),
            c.positive == count_agents(agents@.take(i as int), |a: AgentState| is_positive(a)),
            c.calm == count_agents(agents@.take(i as int), |a: AgentState| is_calm(a)),
            c.moderate == count_agents(agents@.take(i as int), |a: AgentState| is_moderate(a)),
            c.intense == count_agents(agents@.take(i as int), |a: AgentState| is_intense(a)),
            c.active == count_agents(agents@.take(i as int), |a: AgentState| is_active_agent(a)),
    {
        proof {
            lemma_counts(agents@.take(i as int));
            assert(agents@.take(i + 1).drop_last() =~= agents@.take(i as int));
            assert(agents@.take(i + 1).last() == agents@[i as int]);
        }
        let a = &agents[i];
        if a.attitude == Attitude::Positive {
            c.positive = c.positive + 1;
        }
        match a.emotion {
            Emotion::Calm => {
                c.calm = c.calm + 1;
            },
            Emotion::Moderate => {
                c.moderate = c.moderate + 1;
            },
            Emotion::Intense => {
                c.intense = c.intense + 1;
            },
        }
        if a.behavior.is_active() {
            c.active = c.active + 1;
        }
    }
    proof {
        assert(agents@.take(agents.len() as int) =~= agents@);
        lemma_counts(agents@);
    }
    c
}

} // verus!
