//! Classical diffusion and opinion-dynamics baselines on the same directed
//! follow-graph: Linear Threshold, Independent Cascade, Voter and DeGroot.
//!
//! Models where information flows to the followers (IC) spread along
//! in-neighbours (the followers); models where a node is swayed by whom it
//! follows (LT, Voter, DeGroot) read its out-neighbours (its followees).

use vstd::prelude::*;

use crate::network::FollowGraph;
use crate::text::{chars_of, is_word, lemma_normalized_plain, normalize, normalized};
use crate::world::{count_true, lemma_count_true_bound, lemma_count_true_monotone};

verus! {

/// A classical baseline model.
#[derive(Debug, Clone, Copy, PartialEq, Eq, Structural)]
pub enum BaselineModel {
    /// Linear Threshold (progressive, threshold driven).
    LinearThreshold,
    /// Independent Cascade (progressive, probabilistic infection).
    IndependentCascade,
    /// Voter model (non-progressive, random copying).
    Voter,
    /// DeGroot (linear averaging of continuous opinions).
    DeGroot,
}

impl BaselineModel {
    pub open spec fn spec_label(self) -> Seq<char> {
        match self {
            BaselineModel::LinearThreshold => "lt"@,
            BaselineModel::IndependentCascade => "ic"@,
            BaselineModel::Voter => "voter"@,
            BaselineModel::DeGroot => "degroot"@,
        }
    }

    pub open spec fn spec_is_progressive(self) -> bool {
        self is LinearThreshold || self is IndependentCascade
    }

    /// Short label (command line, output).
    pub fn label(&self) -> (r: &'static str)
        ensures
            r@ == self.spec_label(),
    {
        match self {
            BaselineModel::LinearThreshold => "lt",
            BaselineModel::IndependentCascade => "ic",
            BaselineModel::Voter => "voter",
            BaselineModel::DeGroot => "degroot",
        }
    }

    /// Whether a node once active stays active (LT and IC).
    pub fn is_progressive(&self) -> (r: bool)
        ensures
            r == self.spec_is_progressive(),
    {
        matches!(self, BaselineModel::LinearThreshold | BaselineModel::IndependentCascade)
    }
}

/// The baseline model a name denotes (trimmed, ASCII case ignored).
pub open spec fn baseline_of(s: Seq<char>) -> Option<BaselineModel> {
    let w = normalized(s);
    if w == "lt"@ || w == "linear_threshold"@ || w == "linear-threshold"@ {
        Some(BaselineModel::LinearThreshold)
    } else if w == "ic"@ || w == "independent_cascade"@ || w == "independent-cascade"@ {
        Some(BaselineModel::IndependentCascade)
    } else if w == "voter"@ {
        Some(BaselineModel::Voter)
    } else if w == "degroot"@ || w == "de_groot"@ || w == "de-groot"@ {
        Some(BaselineModel::DeGroot)
    } else {
        None
    }
}

/// The message for a name that is no baseline model.
pub open spec fn baseline_error(s: Seq<char>) -> Seq<char> {
    "不正なベースラインモデル: \""@ + s + "\" (lt / ic / voter / degroot)"@
}

/// Parses a [`BaselineModel`] from its name; an unknown name is an error
/// that quotes it.
pub fn parse_baseline(s: &str) -> (r: Result<BaselineModel, String>)
    ensures
        match r {
            Ok(m) => baseline_of(s@) == Some(m),
            Err(e) => baseline_of(s@) is None && e@ == baseline_error(s@),
        },
{
    let w = normalize(&chars_of(s));
    if is_word(&w, "lt") || is_word(&w, "linear_threshold") || is_word(&w, "linear-threshold") {
        Ok(BaselineModel::LinearThreshold)
    } else if is_word(&w, "ic") || is_word(&w, "independent_cascade") || is_word(
        &w,
        "independent-cascade",
    ) {
        Ok(BaselineModel::IndependentCascade)
    } else if is_word(&w, "voter") {
        Ok(BaselineModel::Voter)
    } else if is_word(&w, "degroot") || is_word(&w, "de_groot") || is_word(&w, "de-groot") {
        Ok(BaselineModel::DeGroot)
    } else {
        let mut e = String::from_str("不正なベースラインモデル: \"");
        e.append(s);
        e.append("\" (lt / ic / voter / degroot)");
        Err(e)
    }
}

/// Parsing the label of a baseline model gives that model back.
pub proof fn lemma_baseline_label_roundtrip(m: BaselineModel)
    ensures
        baseline_of(m.spec_label()) == Some(m),
{
    reveal_strlit("lt");
    reveal_strlit("ic");
    reveal_strlit("voter");
    reveal_strlit("degroot");
    reveal_strlit("linear_threshold");
    reveal_strlit("linear-threshold");
    reveal_strlit("independent_cascade");
    reveal_strlit("independent-cascade");
    lemma_normalized_plain(m.spec_label());
}

// ------------------------------------------------------------------------- //
// Seeds and counts
// ------------------------------------------------------------------------- //

/// The seed nodes: the first `k` of `n`.
pub open spec fn seed_set(n: nat, k: nat) -> Seq<bool> {
    Seq::new(n, |v: int| v < k)
}

/// The seed flags of the first `min(k, n)` nodes.
pub fn seed_flags(n: usize, k: usize) -> (r: Vec<bool>)
    ensures
        r@ == seed_set(n as nat, if k < n { k as nat } else { n as nat }),
{
    let m = if k < n {
        k
    } else {
        n
    };
    let mut r: Vec<bool> = Vec::new();
    for v in 0..n
        invariant
            r@ == seed_set(n as nat, m as nat).take(v as int),
    {
        r.push(v < m);
        assert(seed_set(n as nat, m as nat).take(v + 1) =~= seed_set(n as nat, m as nat).take(
            v as int,
        ).push(v < m));
    }
    assert(seed_set(n as nat, m as nat).take(n as int) =~= seed_set(n as nat, m as nat));
    r
}

/// The number of `true` flags.
pub fn count_flags(s: &Vec<bool>) -> (c: usize)
    ensures
        c == count_true(s@),
{
    let mut c: usize = 0;
    for i in 0..s.len()
        invariant
            c == count_true(s@.take(i as int)),
    {
        proof {
            assert(s@.take(i + 1).drop_last() =~= s@.take(i as int));
            lemma_count_true_bound(s@.take(i as int));
        }
        if s[i] {
            c += 1;
        }
    }
    assert(s@.take(s.len() as int) =~= s@);
    c
}

/// A seed set of `n` nodes holds `min(k, n)` of them.
pub proof fn lemma_seed_count(n: nat, k: nat)
    requires
        k <= n,
    ensures
        count_true(seed_set(n, k)) == k,
{
    crate::simulation::lemma_count_prefix(seed_set(n, k), k as int);
}

/// How many of the nodes listed in `row` are active.
pub open spec fn count_active(row: Seq<u64>, active: Seq<bool>) -> nat
    decreases row.len(),
{
    if row.len() == 0 {
        0
    } else {
        count_active(row.drop_last(), active) + if active[row.last() as int] {
            1nat
        } else {
            0nat
        }
    }
}

fn count_active_exec(row: &Vec<u64>, active: &Vec<bool>) -> (c: usize)
    requires
        forall|j: int| 0 <= j < row@.len() ==> (row@[j] as int) < active.len(),
    ensures
        c == count_active(row@, active@),
        c <= row@.len(),
{
    let mut c: usize = 0;
    for j in 0..row.len()
        invariant
            forall|m: int| 0 <= m < row@.len() ==> (row@[m] as int) < active.len(),
            c == count_active(row@.take(j as int), active@),
            c <= j,
    {
        assert(row@.take(j + 1).drop_last() =~= row@.take(j as int));
        if active[row[j] as usize] {
            c += 1;
        }
    }
    assert(row@.take(row.len() as int) =~= row@);
    c
}

// ------------------------------------------------------------------------- //
// LT — Linear Threshold
// ------------------------------------------------------------------------- //

/// One round of Linear Threshold: an inactive node that follows someone
/// becomes active once at least `need[v]` of its followees are active (the
/// driver gives `need[v]`, the least count whose share reaches the
/// threshold); active nodes stay active.
#[verifier::opaque]
pub open spec fn lt_step(net: FollowGraph, need: Seq<usize>, active: Seq<bool>) -> Seq<bool> {
    Seq::new(
        active.len(),
        |v: int|
            active[v] || (net.follows[v]@.len() > 0 && count_active(net.follows[v]@, active)
                >= need[v]),
    )
}

/// The active set after `t` rounds of Linear Threshold.
pub open spec fn lt_iter(net: FollowGraph, need: Seq<usize>, a0: Seq<bool>, t: nat) -> Seq<bool>
    decreases t,
{
    if t == 0 {
        a0
    } else {
        lt_step(net, need, lt_iter(net, need, a0, (t - 1) as nat))
    }
}

/// The Linear Threshold rule between the active flags before and after a
/// round: an active node stays active, and an inactive node becomes active
/// exactly when it follows someone and at least `need[v]` of the nodes it
/// follows are active (its followers do not count).
#[verifier::opaque]
pub open spec fn lt_rule(net: FollowGraph, need: Seq<usize>, active: Seq<bool>, next: Seq<bool>) -> bool {
    &&& next.len() == active.len()
    &&& forall|v: int|
        0 <= v < active.len() ==> #[trigger] next[v] == (active[v] || (net.follows[v]@.len() > 0
            && net.follows[v]@.filter(|u: u64| active[u as int]).len() >= need[v]))
}

/// The active followees of a node are counted among the nodes it follows.
pub proof fn lemma_count_active_filter(row: Seq<u64>, active: Seq<bool>)
    ensures
        count_active(row, active) == row.filter(|u: u64| active[u as int]).len(),
    decreases row.len(),
{
    if row.len() > 0 {
        lemma_count_active_filter(row.drop_last(), active);
        assert(row =~= row.drop_last().push(row.last()));
        row.drop_last().lemma_filter_push(row.last(), |u: u64| active[u as int]);
    }
}

/// The Linear Threshold rule: in a round, an active node stays active, and
/// an inactive node becomes active exactly when it follows someone and at
/// least `need[v]` of the nodes it follows are active; its followers do not
/// count.
pub proof fn lemma_lt_rule(net: FollowGraph, need: Seq<usize>, active: Seq<bool>)
    ensures
        lt_step(net, need, active).len() == active.len(),
        forall|v: int|
            0 <= v < active.len() ==> #[trigger] lt_step(net, need, active)[v] == (active[v] || (
            net.follows[v]@.len() > 0 && net.follows[v]@.filter(|u: u64| active[u as int]).len()
                >= need[v])),
        lt_rule(net, need, active, lt_step(net, need, active)),
{
    reveal(lt_step);
    reveal(lt_rule);
    assert forall|v: int| 0 <= v < active.len() implies #[trigger] lt_step(net, need, active)[v] == (
    active[v] || (net.follows[v]@.len() > 0 && net.follows[v]@.filter(|u: u64| active[u as int]).len()
        >= need[v])) by {
        lemma_count_active_filter(net.follows[v]@, active);
    }
}

/// Over a Linear Threshold run, round `t + 1` follows the rule from the
/// active set after round `t`.
pub proof fn lemma_lt_run_rule(net: FollowGraph, need: Seq<usize>, a0: Seq<bool>, t: nat)
    ensures
        lt_iter(net, need, a0, t + 1).len() == lt_iter(net, need, a0, t).len(),
        forall|v: int|
            0 <= v < lt_iter(net, need, a0, t).len() ==> #[trigger] lt_iter(net, need, a0, t + 1)[v] == (
            lt_iter(net, need, a0, t)[v] || (net.follows[v]@.len() > 0 && net.follows[v]@.filter(
                |u: u64| lt_iter(net, need, a0, t)[u as int],
            ).len() >= need[v])),
{
    lemma_lt_rule(net, need, lt_iter(net, need, a0, t));
}

/// Round `j` of a Linear Threshold run changed the active set.
pub open spec fn lt_round_changed(net: FollowGraph, need: Seq<usize>, a0: Seq<bool>, j: int) -> bool {
    lt_iter(net, need, a0, j as nat) != lt_iter(net, need, a0, (j - 1) as nat)
}

/// The history of a progressive run: the number of active nodes after each
/// round (round 0 is the seed set); for a progressive model this is also the
/// cumulative reach.
pub struct ProgressiveRun {
    pub active_counts: Vec<usize>,
    /// The last round run.
    pub final_round: usize,
    /// The run stopped because a round activated nobody.
    pub converged: bool,
}

/// Nodes active before a round of Linear Threshold stay active after it.
pub proof fn lemma_lt_grows(net: FollowGraph, need: Seq<usize>, a0: Seq<bool>, t: nat)
    ensures
        lt_iter(net, need, a0, t).len() == a0.len(),
        lt_iter(net, need, a0, t + 1).len() == a0.len(),
        forall|v: int|
            0 <= v < a0.len() && #[trigger] lt_iter(net, need, a0, t)[v] ==> lt_iter(
                net,
                need,
                a0,
                t + 1,
            )[v],
    decreases t,
{
    reveal(lt_step);
    if t > 0 {
        lemma_lt_grows(net, need, a0, (t - 1) as nat);
    }
}

/// One round of Linear Threshold on the active flags; also tells whether
/// any node was activated.
pub fn lt_round(net: &FollowGraph, need: &Vec<usize>, active: &Vec<bool>) -> (r: (Vec<bool>, bool))
    requires
        net.wf(),
        need.len() == net.node_count(),
        active.len() == net.node_count(),
    ensures
        r.0@ == lt_step(*net, need@, active@),
        r.1 == (r.0@ != active@),
        r.0@.len() == active@.len(),
        lt_rule(*net, need@, active@, r.0@),
{
    proof {
        lemma_lt_rule(*net, need@, active@);
    }
    reveal(lt_step);
    let n = net.n();
    let ghost prev = active@;
    let ghost nx = lt_step(*net, need@, prev);
    let mut next: Vec<bool> = Vec::new();
    let mut changed = false;
    for v in 0..n
        invariant
            n == net.node_count(),
            net.wf(),
            need.len() == n,
            active@ == prev,
            prev.len() == n,
            nx == lt_step(*net, need@, prev),
            next@ == nx.take(v as int),
            changed == (exists|u: int| 0 <= u < v && nx[u] != prev[u]),
    {
        let mut val = active[v];
        if !val {
            let row = &net.follows[v];
            if row.len() > 0 {
                proof {
                    assert forall|j: int| 0 <= j < row@.len() implies (row@[j] as int)
                        < active.len() by {
                        assert(net.follows[v as int]@[j] < net.follows.len());
                    }
                }
                let c = count_active_exec(row, active);
                if c >= need[v] {
                    val = true;
                }
            }
        }
        next.push(val);
        proof {
            reveal(lt_step);
            assert(nx.take(v + 1) =~= nx.take(v as int).push(val));
            if exists|u: int| 0 <= u < v + 1 && nx[u] != prev[u] {
                let u = choose|u: int| 0 <= u < v + 1 && nx[u] != prev[u];
            }
        }
        if val != active[v] {
            changed = true;
        }
    }
    proof {
        assert(nx.len() == n);
        assert(nx.take(n as int) =~= nx);
        if !changed {
            assert(nx =~= prev);
        } else {
            let u = choose|u: int| 0 <= u < n && nx[u] != prev[u];
            assert(next@[u] != prev[u]);
        }
    }
    (next, changed)
}

/// Runs Linear Threshold from the first `seed_count` nodes for at most
/// `rounds` rounds, stopping after the first round that activates nobody.
///
/// The counts never decrease (the model is progressive), and round 0 counts
/// the seeds.
pub fn run_linear_threshold(net: &FollowGraph, seed_count: usize, need: &Vec<usize>, rounds: usize) -> (r: ProgressiveRun)
    requires
        net.wf(),
        need.len() == net.node_count(),
    ensures
        ({
            let n = net.node_count();
            let k = if seed_count < n {
                seed_count as nat
            } else {
                n
            };
            let a0 = seed_set(n, k);
            &&& r.final_round <= rounds
            &&& r.active_counts@.len() == r.final_round + 1
            &&& forall|t: int|
                0 <= t <= r.final_round ==> #[trigger] r.active_counts@[t] == count_true(
                    lt_iter(*net, need@, a0, t as nat),
                )
            &&& r.converged == (r.final_round >= 1 && lt_iter(*net, need@, a0, r.final_round as nat)
                == lt_iter(*net, need@, a0, (r.final_round - 1) as nat))
            &&& !r.converged ==> r.final_round == rounds
            &&& forall|t: int|
                1 <= t < r.final_round ==> #[trigger] lt_iter(*net, need@, a0, t as nat) != lt_iter(
                    *net,
                    need@,
                    a0,
                    (t - 1) as nat,
                )
            &&& r.active_counts@[0] == k
            &&& forall|t: int|
                0 <= t < r.final_round ==> #[trigger] r.active_counts@[t] <= r.active_counts@[t + 1]
            &&& forall|t: int| 0 <= t <= r.final_round ==> #[trigger] r.active_counts@[t] <= n
        }),
{
    let n = net.n();
    let ghost k = if seed_count < n {
        seed_count as nat
    } else {
        n as nat
    };
    let ghost a0 = seed_set(n as nat, k);
    let mut active = seed_flags(n, seed_count);
    let mut counts: Vec<usize> = Vec::new();
    proof {
        lemma_seed_count(n as nat, k);
        lemma_count_true_bound(active@);
    }
    counts.push(count_flags(&active));
    let mut t: usize = 0;
    let mut converged = false;
    while t < rounds && !converged
        invariant
            n == net.node_count(),
            net.wf(),
            need.len() == n,
            t <= rounds,
            a0 == seed_set(n as nat, k),
            active@ == lt_iter(*net, need@, a0, t as nat),
            active@.len() == n,
            counts@.len() == t + 1,
            forall|j: int|
                0 <= j <= t ==> #[trigger] counts@[j] == count_true(
                    lt_iter(*net, need@, a0, j as nat),
                ),
            forall|j: int| 1 <= j < t ==> #[trigger] lt_round_changed(*net, need@, a0, j),
            converged == (t >= 1 && lt_iter(*net, need@, a0, t as nat) == lt_iter(
                *net,
                need@,
                a0,
                (t - 1) as nat,
            )),
        decreases rounds - t,
    {
        let ghost prev = active@;
        let ghost before = counts@;
        let (next, changed) = lt_round(net, need, &active);
        proof {
            assert(lt_iter(*net, need@, a0, (t + 1) as nat) == lt_step(*net, need@, prev));
        }
        active = next;
        t = t + 1;
        let c = count_flags(&active);
        counts.push(c);
        converged = !changed;
        proof {
            assert forall|j: int| 1 <= j < t implies #[trigger] lt_round_changed(*net, need@, a0, j) by {
                if j == t - 1 {
                    assert(lt_iter(*net, need@, a0, (t - 1) as nat) != lt_iter(*net, need@, a0, (t - 2) as nat));
                }
            }
            assert forall|j: int| 0 <= j <= t implies #[trigger] counts@[j] == count_true(
                lt_iter(*net, need@, a0, j as nat),
            ) by {
                if j < t {
                    assert(counts@[j] == before[j]);
                }
            }
        }
    }
    proof {
        assert forall|j: int| 1 <= j < t implies #[trigger] lt_iter(*net, need@, a0, j as nat) != lt_iter(
            *net,
            need@,
            a0,
            (j - 1) as nat,
        ) by {
            assert(lt_round_changed(*net, need@, a0, j));
        }
        assert forall|j: int| 0 <= j < t implies #[trigger] counts@[j] <= counts@[j + 1] by {
            lemma_lt_grows(*net, need@, a0, j as nat);
            lemma_count_true_monotone(
                lt_iter(*net, need@, a0, j as nat),
                lt_iter(*net, need@, a0, (j + 1) as nat),
            );
        }
        assert forall|j: int| 0 <= j <= t implies #[trigger] counts@[j] <= n by {
            lemma_lt_grows(*net, need@, a0, j as nat);
            lemma_count_true_bound(lt_iter(*net, need@, a0, j as nat));
        }
    }
    ProgressiveRun { active_counts: counts, final_round: t, converged }
}

// ------------------------------------------------------------------------- //
// Voter
// ------------------------------------------------------------------------- //

/// One synchronous round of the Voter model: every node that follows
/// someone copies the opinion of the followee at position `picks[v]` of its
/// followee list (drawn uniformly by the driver); the others keep theirs.
pub open spec fn voter_next(net: FollowGraph, op: Seq<bool>, picks: Seq<usize>) -> Seq<bool> {
    Seq::new(
        op.len(),
        |v: int|
            if net.follows[v]@.len() == 0 {
                op[v]
            } else {
                op[net.follows[v]@[picks[v] as int] as int]
            },
    )
}

/// In a Voter round every node that follows someone takes the opinion of
/// its picked followee, whatever its own; the others keep theirs.
pub proof fn lemma_voter_copies(net: FollowGraph, op: Seq<bool>, picks: Seq<usize>)
    ensures
        voter_next(net, op, picks).len() == op.len(),
        forall|v: int|
            0 <= v < op.len() && net.follows[v]@.len() > 0 ==> #[trigger] voter_next(net, op, picks)[v]
                == op[net.follows[v]@[picks[v] as int] as int],
        forall|v: int|
            0 <= v < op.len() && net.follows[v]@.len() == 0 ==> #[trigger] voter_next(net, op, picks)[v]
                == op[v],
{
}

/// Whether an opinion counts as positive: `one_counts` for the opinion 1 and
/// `zero_counts` for the opinion 0 (an opinion is positive when it reaches
/// the binary threshold).
pub open spec fn counts_as_positive(o: bool, one_counts: bool, zero_counts: bool) -> bool {
    if o {
        one_counts
    } else {
        zero_counts
    }
}

/// One round of the Voter model. Opinions are 1 (`true`) or 0; a node that
/// copies an opinion counting as positive is reached. Returns whether any
/// opinion changed (the run stops after a round that changes nothing).
pub fn voter_round(
    net: &FollowGraph,
    opinion: &mut Vec<bool>,
    reached: &mut Vec<bool>,
    picks: &Vec<usize>,
    one_counts: bool,
    zero_counts: bool,
) -> (changed: bool)
    requires
        net.wf(),
        old(opinion).len() == net.node_count(),
        old(reached).len() == net.node_count(),
        picks.len() == net.node_count(),
        forall|v: int|
            0 <= v < picks.len() && net.follows[v]@.len() > 0 ==> #[trigger] picks[v]
                < net.follows[v]@.len(),
    ensures
        final(opinion)@ == voter_next(*net, old(opinion)@, picks@),
        final(reached).len() == old(reached).len(),
        forall|v: int|
            0 <= v < final(reached).len() ==> #[trigger] final(reached)[v] == (old(reached)[v] || (
            net.follows[v]@.len() > 0 && counts_as_positive(
                voter_next(*net, old(opinion)@, picks@)[v],
                one_counts,
                zero_counts,
            ))),
        changed == (final(opinion)@ != old(opinion)@),
        final(opinion)@.len() == old(opinion)@.len(),
        forall|v: int|
            0 <= v < old(opinion)@.len() && net.follows[v]@.len() > 0 ==> #[trigger] final(opinion)@[v]
                == old(opinion)@[net.follows[v]@[picks@[v] as int] as int],
        forall|v: int|
            0 <= v < old(opinion)@.len() && net.follows[v]@.len() == 0 ==> #[trigger] final(opinion)@[v]
                == old(opinion)@[v],
{
    proof {
        lemma_voter_copies(*net, opinion@, picks@);
    }
    let n = net.n();
    let ghost op = opinion@;
    let ghost r0 = reached@;
    let ghost nx = voter_next(*net, op, picks@);
    let mut next: Vec<bool> = Vec::new();
    let mut changed = false;
    for v in 0..n
        invariant
            n == net.node_count(),
            net.wf(),
            picks.len() == n,
            opinion@ == op,
            op.len() == n,
            r0.len() == n,
            nx == voter_next(*net, op, picks@),
            forall|u: int|
                0 <= u < picks.len() && net.follows[u]@.len() > 0 ==> #[trigger] picks[u]
                    < net.follows[u]@.len(),
            next@ == nx.take(v as int),
            reached.len() == n,
            forall|u: int|
                0 <= u < n ==> #[trigger] reached[u] == if u < v {
                    r0[u] || (net.follows[u]@.len() > 0 && counts_as_positive(
                        nx[u],
                        one_counts,
                        zero_counts,
                    ))
                } else {
                    r0[u]
                },
            changed == (exists|u: int| 0 <= u < v && nx[u] != op[u]),
    {
        let row = &net.follows[v];
        let mut val = opinion[v];
        if row.len() > 0 {
            let pick = row[picks[v]];
            proof {
                assert(net.follows[v as int]@[picks[v as int] as int] < net.follows.len());
            }
            val = opinion[pick as usize];
            let positive = if val {
                one_counts
            } else {
                zero_counts
            };
            if positive {
                reached.set(v, true);
            }
        }
        let ghost before = next@;
        next.push(val);
        proof {
            reveal(lt_step);
            assert(nx.take(v + 1) =~= nx.take(v as int).push(val));
            if exists|u: int| 0 <= u < v + 1 && nx[u] != op[u] {
                let u = choose|u: int| 0 <= u < v + 1 && nx[u] != op[u];
            }
        }
        if val != opinion[v] {
            changed = true;
        }
    }
    proof {
        assert(nx.take(n as int) =~= nx);
        if !changed {
            assert(nx =~= op);
        } else {
            let u = choose|u: int| 0 <= u < n && nx[u] != op[u];
            assert(next@[u] != op[u]);
        }
    }
    *opinion = next;
    changed
}

/// The opinion counts of a round: how many opinions count as positive, and
/// how many are 1 (the sum of the opinions).
pub fn opinion_counts(opinion: &Vec<bool>, one_counts: bool, zero_counts: bool) -> (r: (usize, usize))
    ensures
        r.1 == count_true(opinion@),
        r.0 == count_true(Seq::new(opinion@.len(), |v: int| counts_as_positive(opinion@[v], one_counts, zero_counts))),
        r.0 <= opinion@.len(),
        r.1 <= opinion@.len(),
{
    let ghost pos = Seq::new(opinion@.len(), |v: int| counts_as_positive(opinion@[v], one_counts, zero_counts));
    let mut flags: Vec<bool> = Vec::new();
    for v in 0..opinion.len()
        invariant
            pos == Seq::new(opinion@.len(), |v: int| counts_as_positive(opinion@[v], one_counts, zero_counts)),
            flags@ == pos.take(v as int),
    {
        flags.push(if opinion[v] { one_counts } else { zero_counts });
        assert(pos.take(v + 1) =~= pos.take(v as int).push(pos[v as int]));
    }
    assert(pos.take(opinion.len() as int) =~= pos);
    proof {
        lemma_count_true_bound(pos);
        lemma_count_true_bound(opinion@);
    }
    (count_flags(&flags), count_flags(opinion))
}

} // verus!
