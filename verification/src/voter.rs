//! Voter runs: the Voter model over a whole run, from the picks that the
//! driver draws for every round.

use vstd::prelude::*;

use crate::baseline::{
    count_flags, counts_as_positive, lemma_seed_count, lemma_voter_copies, opinion_counts, seed_flags, seed_set,
    voter_next, voter_round,
};
use crate::network::FollowGraph;
use crate::world::{count_true, lemma_count_true_monotone};

verus! {

// ------------------------------------------------------------------------- //
// Voter runs
// ------------------------------------------------------------------------- //

/// The opinions after `t` Voter rounds, round `j` using the picks `picks[j - 1]`.
pub open spec fn voter_iter(net: FollowGraph, op0: Seq<bool>, picks: Seq<Seq<usize>>, t: nat) -> Seq<bool>
    decreases t,
{
    if t == 0 {
        op0
    } else {
        voter_next(net, voter_iter(net, op0, picks, (t - 1) as nat), picks[t - 1])
    }
}

/// The flags of the opinions that count as positive.
pub open spec fn positive_flags(op: Seq<bool>, one_counts: bool, zero_counts: bool) -> Seq<bool> {
    Seq::new(op.len(), |v: int| counts_as_positive(op[v], one_counts, zero_counts))
}

/// The reached flags after `t` Voter rounds: a node is reached once it
/// copies an opinion that counts as positive.
pub open spec fn voter_reach(
    net: FollowGraph,
    op0: Seq<bool>,
    r0: Seq<bool>,
    picks: Seq<Seq<usize>>,
    one_counts: bool,
    zero_counts: bool,
    t: nat,
) -> Seq<bool>
    decreases t,
{
    if t == 0 {
        r0
    } else {
        let prev = voter_reach(net, op0, r0, picks, one_counts, zero_counts, (t - 1) as nat);
        let nx = voter_iter(net, op0, picks, t);
        Seq::new(
            prev.len(),
            |v: int|
                prev[v] || (net.follows[v]@.len() > 0 && counts_as_positive(nx[v], one_counts, zero_counts)),
        )
    }
}

/// A Voter run in progress from the first nodes (opinion 1, and reached;
/// the others 0), one entry of history per round (round 0 is the start):
/// the opinions counting as positive, the opinions equal to 1, and the
/// nodes reached so far. Exactly the opinions 1 count as positive when
/// `one_positive` holds, and the opinions 0 when `zero_positive` holds.
pub struct VoterRun {
    pub opinion: Vec<bool>,
    pub reached: Vec<bool>,
    pub positive_counts: Vec<usize>,
    pub one_counts: Vec<usize>,
    pub reached_counts: Vec<usize>,
    /// The rounds played.
    pub round: usize,
    /// The last round changed no opinion.
    pub converged: bool,
    pub one_positive: bool,
    pub zero_positive: bool,
    pub seeds: Ghost<Seq<bool>>,
    /// The picks of each round played.
    pub picks: Ghost<Seq<Seq<usize>>>,
}

impl VoterRun {
    /// The run agrees with the rounds played on `net`.
    pub open spec fn wf(&self, net: FollowGraph) -> bool {
        let (a0, ps, f, one, zero) = (self.seeds@, self.picks@, self.round as int, self.one_positive, self.zero_positive);
        &&& net.wf()
        &&& a0.len() == net.node_count()
        &&& ps.len() == f
        &&& self.opinion@ == voter_iter(net, a0, ps, f as nat)
        &&& self.reached@ == voter_reach(net, a0, a0, ps, one, zero, f as nat)
        &&& self.opinion@.len() == net.node_count()
        &&& self.reached@.len() == net.node_count()
        &&& self.positive_counts@.len() == f + 1
        &&& self.one_counts@.len() == f + 1
        &&& self.reached_counts@.len() == f + 1
        &&& forall|t: int|
            0 <= t <= f ==> #[trigger] self.positive_counts@[t] == count_true(
                positive_flags(voter_iter(net, a0, ps, t as nat), one, zero),
            )
        &&& forall|t: int| 0 <= t <= f ==> #[trigger] self.one_counts@[t] == count_true(voter_iter(net, a0, ps, t as nat))
        &&& forall|t: int|
            0 <= t <= f ==> #[trigger] self.reached_counts@[t] == count_true(
                voter_reach(net, a0, a0, ps, one, zero, t as nat),
            )
        &&& forall|t: int| 0 <= t < f ==> #[trigger] self.reached_counts@[t] <= self.reached_counts@[t + 1]
        &&& self.converged == (f >= 1 && voter_iter(net, a0, ps, f as nat) == voter_iter(net, a0, ps, (f - 1) as nat))
        &&& self.converged ==> self.positive_counts@[f] == self.positive_counts@[f - 1]
            && self.one_counts@[f] == self.one_counts@[f - 1]
        &&& (one && !zero) ==> forall|t: int| 0 <= t <= f ==> #[trigger] self.positive_counts@[t] == self.one_counts@[t]
    }

    /// A run from the first `seed_count` nodes (at most all of them).
    pub fn start(net: &FollowGraph, seed_count: usize, one_positive: bool, zero_positive: bool) -> (r: VoterRun)
        requires
            net.wf(),
        ensures
            r.wf(*net),
            r.round == 0,
            !r.converged,
            r.one_positive == one_positive,
            r.zero_positive == zero_positive,
            r.seeds@ == seed_set(
                net.node_count(),
                if seed_count < net.node_count() {
                    seed_count as nat
                } else {
                    net.node_count()
                },
            ),
            r.reached_counts@[0] == if seed_count < net.node_count() {
                seed_count as nat
            } else {
                net.node_count()
            },
    {
        let n = net.n();
        let ghost k = if seed_count < n {
            seed_count as nat
        } else {
            n as nat
        };
        let opinion = seed_flags(n, seed_count);
        let reached = seed_flags(n, seed_count);
        let (p0, o0) = opinion_counts(&opinion, one_positive, zero_positive);
        proof {
            lemma_seed_count(n as nat, k);
        }
        let r0 = count_flags(&reached);
        let mut positive_counts: Vec<usize> = Vec::new();
        positive_counts.push(p0);
        let mut one_counts: Vec<usize> = Vec::new();
        one_counts.push(o0);
        let mut reached_counts: Vec<usize> = Vec::new();
        reached_counts.push(r0);
        let ghost a0 = seed_set(n as nat, k);
        proof {
            if one_positive && !zero_positive {
                assert(positive_flags(opinion@, one_positive, zero_positive) =~= opinion@);
            }
        }
        VoterRun {
            opinion,
            reached,
            positive_counts,
            one_counts,
            reached_counts,
            round: 0,
            converged: false,
            one_positive,
            zero_positive,
            seeds: Ghost(a0),
            picks: Ghost(Seq::empty()),
        }
    }

    /// Plays one round: every node that follows someone copies the opinion
    /// of its followee at position `picks[v]`. The run converges when the
    /// round changes no opinion; the reach never decreases.
    pub fn step(&mut self, net: &FollowGraph, picks: &Vec<usize>)
        requires
            old(self).wf(*net),
            picks.len() == net.node_count(),
            forall|v: int|
                0 <= v < net.node_count() && net.follows[v]@.len() > 0 ==> #[trigger] picks@[v]
                    < net.follows[v]@.len(),
        ensures
            final(self).wf(*net),
            final(self).round == old(self).round + 1,
            final(self).seeds == old(self).seeds,
            final(self).one_positive == old(self).one_positive,
            final(self).zero_positive == old(self).zero_positive,
            final(self).picks@ == old(self).picks@.push(picks@),
            final(self).reached_counts@.take(old(self).reached_counts@.len() as int)
                == old(self).reached_counts@,
            final(self).converged == (final(self).opinion@ == old(self).opinion@),
            forall|v: int|
                0 <= v < net.node_count() && net.follows[v]@.len() > 0 ==> #[trigger] final(self).opinion@[v]
                    == old(self).opinion@[net.follows[v]@[picks@[v] as int] as int],
            forall|v: int|
                0 <= v < net.node_count() && net.follows[v]@.len() == 0 ==> #[trigger] final(self).opinion@[v]
                    == old(self).opinion@[v],
            forall|v: int|
                0 <= v < net.node_count() ==> #[trigger] final(self).reached@[v] == (old(self).reached@[v] || (
                net.follows[v]@.len() > 0 && if final(self).opinion@[v] {
                    old(self).one_positive
                } else {
                    old(self).zero_positive
                })),
    {
        let ghost a0 = self.seeds@;
        let ghost ps0 = self.picks@;
        let ghost ps = ps0.push(picks@);
        let ghost t = self.round as nat;
        let ghost prev_op = self.opinion@;
        let ghost prev_reach = self.reached@;
        let ghost before_p = self.positive_counts@;
        let ghost before_o = self.one_counts@;
        let ghost before_r = self.reached_counts@;
        let one = self.one_positive;
        let zero = self.zero_positive;
        proof {
            lemma_voter_prefix(*net, a0, ps0, ps, one, zero, t);
        }
        let changed = voter_round(net, &mut self.opinion, &mut self.reached, picks, one, zero);
        let rounds_so_far = self.reached_counts.len();
        self.round = rounds_so_far;
        self.picks = Ghost(ps);
        proof {
            assert(ps[t as int] == picks@);
            assert(self.opinion@ == voter_iter(*net, a0, ps, t + 1));
            assert(self.reached@ =~= voter_reach(*net, a0, a0, ps, one, zero, t + 1));
            lemma_count_true_monotone(prev_reach, self.reached@);
        }
        let (pc, oc) = opinion_counts(&self.opinion, one, zero);
        self.positive_counts.push(pc);
        self.one_counts.push(oc);
        let rc = count_flags(&self.reached);
        self.reached_counts.push(rc);
        self.converged = !changed;
        proof {
            assert(positive_flags(self.opinion@, one, zero) =~= Seq::new(
                self.opinion@.len(),
                |v: int| counts_as_positive(self.opinion@[v], one, zero),
            ));
            let f = self.round as int;
            assert forall|j: int| 0 <= j <= f implies #[trigger] self.positive_counts@[j] == count_true(
                positive_flags(voter_iter(*net, a0, ps, j as nat), one, zero),
            ) by {
                if j < f {
                    lemma_voter_prefix(*net, a0, ps0, ps, one, zero, j as nat);
                    assert(self.positive_counts@[j] == before_p[j]);
                }
            }
            assert forall|j: int| 0 <= j <= f implies #[trigger] self.one_counts@[j] == count_true(
                voter_iter(*net, a0, ps, j as nat),
            ) by {
                if j < f {
                    lemma_voter_prefix(*net, a0, ps0, ps, one, zero, j as nat);
                    assert(self.one_counts@[j] == before_o[j]);
                }
            }
            assert forall|j: int| 0 <= j <= f implies #[trigger] self.reached_counts@[j] == count_true(
                voter_reach(*net, a0, a0, ps, one, zero, j as nat),
            ) by {
                if j < f {
                    lemma_voter_prefix(*net, a0, ps0, ps, one, zero, j as nat);
                    assert(self.reached_counts@[j] == before_r[j]);
                }
            }
            assert forall|j: int| 0 <= j < f implies #[trigger] self.reached_counts@[j] <= self.reached_counts@[j + 1] by {
                if j + 1 < f {
                    assert(self.reached_counts@[j] == before_r[j]);
                    assert(self.reached_counts@[j + 1] == before_r[j + 1]);
                }
            }
            assert(self.reached_counts@.take(before_r.len() as int) =~= before_r);
            if one && !zero {
                assert forall|j: int| 0 <= j <= f implies #[trigger] self.positive_counts@[j] == self.one_counts@[j] by {
                    let op = voter_iter(*net, a0, ps, j as nat);
                    assert(positive_flags(op, one, zero) =~= op);
                }
            }
        }
    }
}

/// Over a Voter run, each round every node that follows someone takes the
/// opinion its picked followee held after the previous round; the others
/// keep theirs.
pub proof fn lemma_voter_run_copies(net: FollowGraph, a0: Seq<bool>, ps: Seq<Seq<usize>>, t: nat)
    ensures
        voter_iter(net, a0, ps, t).len() == a0.len(),
        forall|v: int|
            0 <= v < a0.len() && net.follows[v]@.len() > 0 ==> #[trigger] voter_iter(net, a0, ps, t + 1)[v]
                == voter_iter(net, a0, ps, t)[net.follows[v]@[ps[t as int][v] as int] as int],
        forall|v: int|
            0 <= v < a0.len() && net.follows[v]@.len() == 0 ==> #[trigger] voter_iter(net, a0, ps, t + 1)[v]
                == voter_iter(net, a0, ps, t)[v],
    decreases t,
{
    if t > 0 {
        lemma_voter_run_copies(net, a0, ps, (t - 1) as nat);
    }
    lemma_voter_copies(net, voter_iter(net, a0, ps, t), ps[t as int]);
}

/// The opinions and reach after `t` rounds depend only on the picks of those rounds.
pub proof fn lemma_voter_prefix(
    net: FollowGraph,
    a0: Seq<bool>,
    p0: Seq<Seq<usize>>,
    p1: Seq<Seq<usize>>,
    one: bool,
    zero: bool,
    t: nat,
)
    requires
        t <= p0.len(),
        p0.len() <= p1.len(),
        forall|j: int| 0 <= j < p0.len() ==> #[trigger] p1[j] == p0[j],
    ensures
        voter_iter(net, a0, p0, t) == voter_iter(net, a0, p1, t),
        voter_reach(net, a0, a0, p0, one, zero, t) == voter_reach(net, a0, a0, p1, one, zero, t),
    decreases t,
{
    if t > 0 {
        lemma_voter_prefix(net, a0, p0, p1, one, zero, (t - 1) as nat);
        assert(p1[t - 1] == p0[t - 1]);
    }
}

} // verus!
