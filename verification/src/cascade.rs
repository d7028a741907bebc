//! Independent Cascade, one round at a time. Each node activated in the
//! previous round (the frontier, taken in increasing order) tries once to
//! activate each of its followers (in increasing order) that is not active
//! yet and has not been activated earlier in the same round; each try
//! succeeds on a coin that the driver flips. The driver asks for the next
//! try, flips its coin and records the outcome, so the coins are drawn in
//! the order of the tries.

use vstd::prelude::*;

use crate::network::{contains_id, FollowGraph};
use crate::world::{count_true, lemma_count_true_monotone};

verus! {

/// The followers of `u` that are not active, in increasing order.
pub open spec fn inactive_followers(net: FollowGraph, active: Seq<bool>, u: u64) -> Seq<u64> {
    net.spec_followers(u).filter(|w: u64| !active[w as int])
}

/// The tries of a round, before any coin: for each frontier node `u` below
/// `k` in increasing order, its inactive followers in increasing order.
pub open spec fn tries_below(net: FollowGraph, active: Seq<bool>, frontier: Seq<bool>, k: int) -> Seq<u64>
    decreases k,
{
    if k <= 0 {
        Seq::empty()
    } else if frontier[k - 1] {
        tries_below(net, active, frontier, k - 1) + inactive_followers(net, active, (k - 1) as u64)
    } else {
        tries_below(net, active, frontier, k - 1)
    }
}

pub open spec fn round_tries(net: FollowGraph, active: Seq<bool>, frontier: Seq<bool>) -> Seq<u64> {
    tries_below(net, active, frontier, frontier.len() as int)
}

/// After the first `p` tries: the nodes activated so far in the round, in
/// order, and the number of coins used. A try at a node already activated
/// this round is skipped and uses no coin.
pub open spec fn cascade_state(tries: Seq<u64>, p: int, coins: Seq<bool>) -> (Seq<u64>, nat)
    decreases p,
{
    if p <= 0 {
        (Seq::empty(), 0)
    } else {
        let (newly, used) = cascade_state(tries, p - 1, coins);
        let w = tries[p - 1];
        if newly.contains(w) {
            (newly, used)
        } else {
            (if coins[used as int] {
                newly.push(w)
            } else {
                newly
            }, used + 1)
        }
    }
}

/// The nodes that a round activates, given the coins in the order drawn.
pub open spec fn cascade_newly(tries: Seq<u64>, coins: Seq<bool>) -> Seq<u64> {
    cascade_state(tries, tries.len() as int, coins).0
}

/// The state after `p` tries depends only on the coins already used.
pub proof fn lemma_cascade_state_prefix(tries: Seq<u64>, p: int, c1: Seq<bool>, c2: Seq<bool>)
    requires
        0 <= p <= tries.len(),
        cascade_state(tries, p, c1).1 <= c1.len(),
        c1.len() <= c2.len(),
        c2.take(c1.len() as int) == c1,
    ensures
        cascade_state(tries, p, c2) == cascade_state(tries, p, c1),
        cascade_state(tries, p, c1).1 >= 0,
    decreases p,
{
    if p > 0 {
        lemma_cascade_state_monotone(tries, p, c1);
        lemma_cascade_state_prefix(tries, p - 1, c1, c2);
        let (newly, used) = cascade_state(tries, p - 1, c1);
        if !newly.contains(tries[p - 1]) {
            assert(c2.take(c1.len() as int)[used as int] == c2[used as int]);
        }
    }
}

/// Coins are used one try at a time.
pub proof fn lemma_cascade_state_monotone(tries: Seq<u64>, p: int, c: Seq<bool>)
    requires
        0 < p <= tries.len(),
    ensures
        cascade_state(tries, p - 1, c).1 <= cascade_state(tries, p, c).1,
{
}

/// The nodes activated in a round are distinct and come from the tries.
pub proof fn lemma_cascade_state_distinct(tries: Seq<u64>, p: int, c: Seq<bool>)
    requires
        0 <= p <= tries.len(),
    ensures
        cascade_state(tries, p, c).0.no_duplicates(),
        forall|x: u64| #[trigger] cascade_state(tries, p, c).0.contains(x) ==> tries.take(p).contains(x),
    decreases p,
{
    if p > 0 {
        lemma_cascade_state_distinct(tries, p - 1, c);
        let (newly, used) = cascade_state(tries, p - 1, c);
        let w = tries[p - 1];
        assert forall|x: u64| tries.take(p - 1).contains(x) implies tries.take(p).contains(x) by {
            let i = choose|i: int| 0 <= i < p - 1 && #[trigger] tries.take(p - 1)[i] == x;
            assert(tries.take(p)[i] == x);
        }
        assert(tries.take(p)[p - 1] == w);
        if !newly.contains(w) && c[used as int] {
            let q = newly.push(w);
            assert forall|i: int, j: int|
                0 <= i < q.len() && 0 <= j < q.len() && i != j implies q[i] != q[j] by {
                if i == newly.len() {
                    assert(newly[j] == q[j]);
                } else if j == newly.len() {
                    assert(newly[i] == q[i]);
                }
            }
            assert forall|x: u64| #[trigger] q.contains(x) implies tries.take(p).contains(x) by {
                if x == w {
                    assert(tries.take(p)[p - 1] == x);
                } else {
                    let i = choose|i: int| 0 <= i < q.len() && q[i] == x;
                    assert(newly[i] == x);
                    assert(newly.contains(x));
                }
            }
        }
    }
}

/// One round of Independent Cascade in progress.
pub struct CascadeRound {
    /// The tries of the round, in order.
    pub tries: Vec<u64>,
    /// The next try to consider.
    pub pos: usize,
    /// The nodes activated so far in this round, in order.
    pub newly: Vec<u64>,
    /// The coins drawn so far.
    pub coins: Ghost<Seq<bool>>,
}

impl CascadeRound {
    /// The state agrees with the coins drawn so far.
    pub open spec fn wf(&self) -> bool {
        &&& self.pos <= self.tries.len()
        &&& cascade_state(self.tries@, self.pos as int, self.coins@) == (
            self.newly@,
            self.coins@.len(),
        )
    }

    /// Starts a round from the active nodes and the frontier (the nodes
    /// activated in the previous round).
    pub fn start(net: &FollowGraph, active: &Vec<bool>, frontier: &Vec<bool>) -> (r: CascadeRound)
        requires
            net.wf(),
            active.len() == net.node_count(),
            frontier.len() == net.node_count(),
        ensures
            r.wf(),
            r.tries@ == round_tries(*net, active@, frontier@),
            r.pos == 0,
            r.coins@.len() == 0,
    {
        let n = net.n();
        let mut tries: Vec<u64> = Vec::new();
        for u in 0..n
            invariant
                n == net.node_count(),
                net.wf(),
                active.len() == n,
                frontier.len() == n,
                tries@ == tries_below(*net, active@, frontier@, u as int),
        {
            if frontier[u] {
                let fl = net.in_neighbors(u as u64);
                proof {
                    net.lemma_followers(u as u64);
                }
                let ghost base = tries@;
                let ghost all = net.spec_followers(u as u64);
                let ghost pred = |w: u64| !active@[w as int];
                for j in 0..fl.len()
                    invariant
                        n == net.node_count(),
                        active.len() == n,
                        fl@ == all,
                        pred == (|x: u64| !active@[x as int]),
                        forall|p: int| 0 <= p < all.len() ==> (all[p] as int) < n,
                        tries@ == base + all.take(j as int).filter(pred),
                {
                    let w = fl[j];
                    proof {
                        assert(all.take(j + 1) =~= all.take(j as int).push(w));
                        all.take(j as int).lemma_filter_push(w, pred);
                    }
                    if !active[w as usize] {
                        assert(pred(w));
                        tries.push(w);
                    } else {
                        assert(!pred(w));
                    }
                    assert(tries@ =~= base + all.take(j + 1).filter(pred));
                }
                assert(all.take(fl.len() as int) =~= all);
            }
            assert(tries_below(*net, active@, frontier@, u + 1) == if frontier@[u as int] {
                tries_below(*net, active@, frontier@, u as int) + inactive_followers(*net, active@, u as u64)
            } else {
                tries_below(*net, active@, frontier@, u as int)
            });
        }
        CascadeRound { tries, pos: 0, newly: Vec::new(), coins: Ghost(Seq::empty()) }
    }

    /// Moves past the tries at nodes already activated this round and
    /// returns the node of the next try, or `None` when the round is over.
    pub fn next_attempt(&mut self) -> (r: Option<u64>)
        requires
            old(self).wf(),
        ensures
            final(self).wf(),
            final(self).tries == old(self).tries,
            final(self).newly == old(self).newly,
            final(self).coins == old(self).coins,
            final(self).pos >= old(self).pos,
            forall|j: int|
                old(self).pos <= j < final(self).pos ==> old(self).newly@.contains(
                    #[trigger] old(self).tries@[j],
                ),
            match r {
                Some(w) => {
                    &&& (final(self).pos as int) < final(self).tries.len()
                    &&& w == final(self).tries[final(self).pos as int]
                    &&& !final(self).newly@.contains(w)
                },
                None => final(self).pos == final(self).tries.len(),
            },
    {
        while self.pos < self.tries.len() && contains_id(&self.newly, self.tries[self.pos])
            invariant
                self.wf(),
                self.tries == old(self).tries,
                self.newly == old(self).newly,
                self.coins == old(self).coins,
                self.pos >= old(self).pos,
                forall|j: int|
                    old(self).pos <= j < self.pos ==> old(self).newly@.contains(
                        #[trigger] old(self).tries@[j],
                    ),
            decreases self.tries.len() - self.pos,
        {
            self.pos = self.pos + 1;
        }
        if self.pos < self.tries.len() {
            Some(self.tries[self.pos])
        } else {
            None
        }
    }

    /// Records the coin of the pending try: on success its node is activated.
    pub fn record(&mut self, hit: bool)
        requires
            old(self).wf(),
            (old(self).pos as int) < old(self).tries.len(),
            !old(self).newly@.contains(old(self).tries[old(self).pos as int]),
        ensures
            final(self).wf(),
            final(self).tries == old(self).tries,
            final(self).pos == old(self).pos + 1,
            final(self).coins@ == old(self).coins@.push(hit),
    {
        let ghost c0 = self.coins@;
        let ghost c1 = c0.push(hit);
        proof {
            assert(c1.take(c0.len() as int) =~= c0);
            lemma_cascade_state_prefix(self.tries@, self.pos as int, c0, c1);
        }
        if hit {
            let w = self.tries[self.pos];
            self.newly.push(w);
        }
        self.pos = self.pos + 1;
        self.coins = Ghost(c1);
    }

    /// Ends the round: the nodes it activated become active and form the
    /// next frontier. Returns that frontier and how many were activated.
    pub fn finish(&self, active: &mut Vec<bool>) -> (r: (Vec<bool>, usize))
        requires
            self.wf(),
            self.pos == self.tries.len(),
            forall|i: int| 0 <= i < self.tries.len() ==> (self.tries[i] as int) < old(active).len(),
            forall|i: int| 0 <= i < self.tries.len() ==> !old(active)[self.tries[i] as int],
        ensures
            self.newly@ == cascade_newly(self.tries@, self.coins@),
            final(active).len() == old(active).len(),
            forall|v: int|
                0 <= v < final(active).len() ==> #[trigger] final(active)[v] == (old(active)[v]
                    || self.newly@.contains(v as u64)),
            r.0.len() == old(active).len(),
            forall|v: int| 0 <= v < r.0.len() ==> #[trigger] r.0[v] == self.newly@.contains(v as u64),
            r.1 == self.newly@.len(),
            r.1 == 0 <==> forall|v: int| 0 <= v < final(active).len() ==> final(active)[v] == old(active)[v],
    {
        let n = active.len();
        proof {
            lemma_cascade_state_distinct(self.tries@, self.pos as int, self.coins@);
            assert(self.tries@.take(self.pos as int) =~= self.tries@);
        }
        let mut frontier: Vec<bool> = Vec::new();
        for v in 0..n
            invariant
                n == active.len(),
                frontier.len() == v,
                forall|p: int| 0 <= p < v ==> !(#[trigger] frontier[p]),
        {
            frontier.push(false);
        }
        let ghost a0 = active@;
        for j in 0..self.newly.len()
            invariant
                self.wf(),
                self.pos == self.tries.len(),
                n == active.len(),
                a0 == old(active)@,
                frontier.len() == n,
                self.newly@.no_duplicates(),
                forall|x: u64| #[trigger] self.newly@.contains(x) ==> self.tries@.contains(x),
                forall|i: int| 0 <= i < self.tries.len() ==> (self.tries[i] as int) < n,
                forall|v: int|
                    0 <= v < n ==> #[trigger] active[v] == (a0[v] || self.newly@.take(j as int).contains(v as u64)),
                forall|v: int|
                    0 <= v < n ==> #[trigger] frontier[v] == self.newly@.take(j as int).contains(v as u64),
        {
            let w = self.newly[j];
            proof {
                assert(self.newly@.contains(w));
                let i = choose|i: int| 0 <= i < self.tries.len() && self.tries@[i] == w;
                assert forall|x: u64| #[trigger] self.newly@.take(j + 1).contains(x) <==> (self.newly@.take(j as int).contains(x) || x == w) by {
                    if self.newly@.take(j + 1).contains(x) && x != w {
                        let p = choose|p: int| 0 <= p < j + 1 && #[trigger] self.newly@.take(j + 1)[p] == x;
                        assert(self.newly@.take(j as int)[p] == x);
                    }
                    if self.newly@.take(j as int).contains(x) {
                        let p = choose|p: int| 0 <= p < j && #[trigger] self.newly@.take(j as int)[p] == x;
                        assert(self.newly@.take(j + 1)[p] == x);
                    }
                    if x == w {
                        assert(self.newly@.take(j + 1)[j as int] == x);
                    }
                }
            }
            active.set(w as usize, true);
            frontier.set(w as usize, true);
            proof {
                assert forall|v: int| 0 <= v < n implies #[trigger] active[v] == (a0[v] || self.newly@.take(j + 1).contains(v as u64)) by {
                    if v == w as int {
                    } else {
                        assert((v as u64) != w);
                    }
                }
                assert forall|v: int| 0 <= v < n implies #[trigger] frontier[v] == self.newly@.take(j + 1).contains(v as u64) by {
                    if v == w as int {
                    } else {
                        assert((v as u64) != w);
                    }
                }
            }
        }
        proof {
            assert(self.newly@.take(self.newly@.len() as int) =~= self.newly@);
            if self.newly@.len() > 0 {
                let w = self.newly@[0];
                assert(self.newly@.contains(w));
                let i = choose|i: int| 0 <= i < self.tries.len() && self.tries@[i] == w;
                assert(!a0[w as int]);
                assert(active[w as int]);
            } else {
                assert forall|v: int| 0 <= v < n implies active[v] == a0[v] by {
                    assert(!self.newly@.contains(v as u64));
                }
            }
        }
        let count = self.newly.len();
        (frontier, count)
    }
}

// ------------------------------------------------------------------------- //
// Independent Cascade runs
// ------------------------------------------------------------------------- //

/// Every try is at a node of the network that is not active yet.
pub open spec fn tries_inactive(tries: Seq<u64>, active: Seq<bool>) -> bool {
    forall|i: int| 0 <= i < tries.len() ==> (#[trigger] tries[i] as int) < active.len() && !active[tries[i] as int]
}

proof fn lemma_tries_below_inactive(net: FollowGraph, active: Seq<bool>, frontier: Seq<bool>, k: int)
    requires
        net.wf(),
        active.len() == net.node_count(),
        0 <= k <= frontier.len(),
    ensures
        tries_inactive(tries_below(net, active, frontier, k), active),
    decreases k,
{
    if k > 0 {
        lemma_tries_below_inactive(net, active, frontier, k - 1);
        if frontier[k - 1] {
            let u = (k - 1) as u64;
            let all = net.spec_followers(u);
            let pred = |w: u64| !active[w as int];
            let f = all.filter(pred);
            let p = tries_below(net, active, frontier, k - 1);
            net.lemma_followers(u);
            assert(inactive_followers(net, active, u) == f);
            assert forall|i: int| 0 <= i < f.len() implies (#[trigger] f[i] as int) < active.len()
                && !active[f[i] as int] by {
                all.lemma_filter_pred(pred, i);
                assert(f.contains(f[i]));
                all.lemma_filter_contains_rev(pred, f[i]);
                let j = choose|j: int| 0 <= j < all.len() && all[j] == f[i];
            }
            let q = p + f;
            assert forall|i: int| 0 <= i < q.len() implies (#[trigger] q[i] as int) < active.len()
                && !active[q[i] as int] by {
                if i < p.len() {
                    assert(q[i] == p[i]);
                } else {
                    assert(q[i] == f[i - p.len()]);
                }
            }
        }
    }
}

proof fn lemma_tries_below_contents(net: FollowGraph, active: Seq<bool>, frontier: Seq<bool>, k: int)
    requires
        net.wf(),
        active.len() == net.node_count(),
        0 <= k <= frontier.len(),
        frontier.len() <= u64::MAX + 1,
    ensures
        forall|w: u64|
            #[trigger] tries_below(net, active, frontier, k).contains(w) <==> (!active[w as int] && exists|u: int|
                0 <= u < k && frontier[u] && #[trigger] net.arc(w, u as u64)),
    decreases k,
{
    if k > 0 {
        lemma_tries_below_contents(net, active, frontier, k - 1);
        let p = tries_below(net, active, frontier, k - 1);
        let u = (k - 1) as u64;
        assert(u as int == k - 1);
        if frontier[k - 1] {
            let all = net.spec_followers(u);
            let pred = |x: u64| !active[x as int];
            let f = all.filter(pred);
            net.lemma_followers(u);
            assert forall|w: u64| #[trigger] (p + f).contains(w) <==> (!active[w as int] && exists|v: int|
                0 <= v < k && frontier[v] && #[trigger] net.arc(w, v as u64)) by {
                if (p + f).contains(w) {
                    let i = choose|i: int| 0 <= i < (p + f).len() && (p + f)[i] == w;
                    if i < p.len() {
                        assert(p[i] == w);
                        assert(p.contains(w));
                        let v = choose|v: int| 0 <= v < k - 1 && frontier[v] && #[trigger] net.arc(w, v as u64);
                        assert(0 <= v < k && frontier[v] && net.arc(w, v as u64));
                    } else {
                        let i2 = i - p.len();
                        assert(f[i2] == w);
                        all.lemma_filter_pred(pred, i2);
                        assert(f.contains(w));
                        all.lemma_filter_contains_rev(pred, w);
                        assert(net.arc(w, u));
                        assert(net.arc(w, (k - 1) as u64));
                    }
                }
                if !active[w as int] && exists|v: int| 0 <= v < k && frontier[v] && #[trigger] net.arc(w, v as u64) {
                    let v = choose|v: int| 0 <= v < k && frontier[v] && #[trigger] net.arc(w, v as u64);
                    if v < k - 1 {
                        assert(p.contains(w));
                        let i = choose|i: int| 0 <= i < p.len() && p[i] == w;
                        assert((p + f)[i] == w);
                    } else {
                        assert(v as u64 == u);
                        assert(all.contains(w));
                        let i = choose|i: int| 0 <= i < all.len() && all[i] == w;
                        all.lemma_filter_contains(pred, i);
                        assert(f.contains(w));
                        let i3 = choose|i3: int| 0 <= i3 < f.len() && f[i3] == w;
                        assert((p + f)[p.len() + i3] == w);
                    }
                }
            }
        } else {
            assert forall|w: u64| #[trigger] p.contains(w) <==> (!active[w as int] && exists|v: int|
                0 <= v < k && frontier[v] && #[trigger] net.arc(w, v as u64)) by {
                if !active[w as int] && exists|v: int| 0 <= v < k && frontier[v] && #[trigger] net.arc(w, v as u64) {
                    let v = choose|v: int| 0 <= v < k && frontier[v] && #[trigger] net.arc(w, v as u64);
                    assert(v != k - 1);
                    assert(0 <= v < k - 1 && frontier[v] && net.arc(w, v as u64));
                }
                if p.contains(w) {
                    let v = choose|v: int| 0 <= v < k - 1 && frontier[v] && #[trigger] net.arc(w, v as u64);
                    assert(0 <= v < k && frontier[v] && net.arc(w, v as u64));
                }
            }
        }
    }
}

/// A node is tried in a round exactly when it is not active yet and follows
/// some node of the frontier: the frontier's posts reach their followers.
pub proof fn lemma_round_tries_contents(net: FollowGraph, active: Seq<bool>, frontier: Seq<bool>)
    requires
        net.wf(),
        active.len() == net.node_count(),
        frontier.len() <= u64::MAX + 1,
    ensures
        forall|w: u64|
            #[trigger] round_tries(net, active, frontier).contains(w) <==> (!active[w as int] && exists|u: int|
                0 <= u < frontier.len() && frontier[u] && #[trigger] net.arc(w, u as u64)),
{
    lemma_tries_below_contents(net, active, frontier, frontier.len() as int);
}

/// The tries of a round are at nodes that are not active yet.
pub proof fn lemma_round_tries_inactive(net: FollowGraph, active: Seq<bool>, frontier: Seq<bool>)
    requires
        net.wf(),
        active.len() == net.node_count(),
    ensures
        tries_inactive(round_tries(net, active, frontier), active),
{
    lemma_tries_below_inactive(net, active, frontier, frontier.len() as int);
}

/// The coins used never decrease from one try to a later one.
proof fn lemma_coins_used_grow(tries: Seq<u64>, p: int, q: int, c: Seq<bool>)
    requires
        0 <= p <= q <= tries.len(),
    ensures
        cascade_state(tries, p, c).1 <= cascade_state(tries, q, c).1,
    decreases q - p,
{
    if p < q {
        lemma_coins_used_grow(tries, p, q - 1, c);
        lemma_cascade_state_monotone(tries, q, c);
    }
}

/// A round in which every coin drawn failed activates nobody.
pub proof fn lemma_failed_coins(tries: Seq<u64>, c: Seq<bool>)
    requires
        cascade_state(tries, tries.len() as int, c).1 <= c.len(),
        forall|i: int| 0 <= i < c.len() ==> !(#[trigger] c[i]),
    ensures
        cascade_newly(tries, c).len() == 0,
{
    assert forall|p: int| 0 <= p <= tries.len() implies #[trigger] cascade_state(tries, p, c).0.len() == 0 by {
        lemma_failed_prefix(tries, p, c);
    }
}

proof fn lemma_failed_prefix(tries: Seq<u64>, p: int, c: Seq<bool>)
    requires
        0 <= p <= tries.len(),
        cascade_state(tries, tries.len() as int, c).1 <= c.len(),
        forall|i: int| 0 <= i < c.len() ==> !(#[trigger] c[i]),
    ensures
        cascade_state(tries, p, c).0.len() == 0,
    decreases p,
{
    if p > 0 {
        lemma_failed_prefix(tries, p - 1, c);
        lemma_coins_used_grow(tries, p, tries.len() as int, c);
        let (newly, used) = cascade_state(tries, p - 1, c);
        if !newly.contains(tries[p - 1]) {
            assert(used + 1 <= c.len());
            assert(!c[used as int]);
        }
    }
}

/// A round in which every coin drawn succeeded activates every node it tries.
pub proof fn lemma_successful_coins(tries: Seq<u64>, c: Seq<bool>)
    requires
        cascade_state(tries, tries.len() as int, c).1 <= c.len(),
        forall|i: int| 0 <= i < c.len() ==> #[trigger] c[i],
    ensures
        forall|w: u64| #[trigger] tries.contains(w) ==> cascade_newly(tries, c).contains(w),
{
    lemma_successful_prefix(tries, tries.len() as int, c);
    assert(tries.take(tries.len() as int) =~= tries);
}

proof fn lemma_successful_prefix(tries: Seq<u64>, p: int, c: Seq<bool>)
    requires
        0 <= p <= tries.len(),
        cascade_state(tries, tries.len() as int, c).1 <= c.len(),
        forall|i: int| 0 <= i < c.len() ==> #[trigger] c[i],
    ensures
        forall|w: u64| #[trigger] tries.take(p).contains(w) ==> cascade_state(tries, p, c).0.contains(w),
    decreases p,
{
    if p > 0 {
        lemma_successful_prefix(tries, p - 1, c);
        lemma_coins_used_grow(tries, p, tries.len() as int, c);
        let (newly, used) = cascade_state(tries, p - 1, c);
        let x = tries[p - 1];
        let q = cascade_state(tries, p, c).0;
        if !newly.contains(x) {
            assert(used + 1 <= c.len());
            assert(c[used as int]);
            assert(q == newly.push(x));
        }
        assert forall|w: u64| #[trigger] tries.take(p).contains(w) implies q.contains(w) by {
            let i = choose|i: int| 0 <= i < p && tries.take(p)[i] == w;
            if i < p - 1 {
                assert(tries.take(p - 1)[i] == w);
                assert(tries.take(p - 1).contains(w));
                let j = choose|j: int| 0 <= j < newly.len() && newly[j] == w;
                if !newly.contains(x) {
                    assert(q[j] == w);
                }
            } else {
                if newly.contains(x) {
                } else {
                    assert(q[newly.len() as int] == w);
                }
            }
        }
    }
}

/// The active flags with the nodes of `newly` made active.
pub open spec fn with_active(active: Seq<bool>, newly: Seq<u64>) -> Seq<bool> {
    Seq::new(active.len(), |v: int| active[v] || newly.contains(v as u64))
}

/// The flags of the nodes of `newly`.
pub open spec fn newly_flags(n: nat, newly: Seq<u64>) -> Seq<bool> {
    Seq::new(n, |v: int| newly.contains(v as u64))
}

/// The nodes a round activates, from the active nodes, the frontier and the
/// coins drawn in that round.
pub open spec fn ic_newly(net: FollowGraph, active: Seq<bool>, frontier: Seq<bool>, coins: Seq<bool>) -> Seq<u64> {
    cascade_newly(round_tries(net, active, frontier), coins)
}

/// The active flags and the frontier after `t` rounds from the seeds
/// `seeds`, round `j` drawing the coins `coins[j - 1]`.
pub open spec fn ic_state(net: FollowGraph, seeds: Seq<bool>, coins: Seq<Seq<bool>>, t: nat) -> (Seq<bool>, Seq<bool>)
    decreases t,
{
    if t == 0 {
        (seeds, seeds)
    } else {
        let (a, f) = ic_state(net, seeds, coins, (t - 1) as nat);
        let nw = ic_newly(net, a, f, coins[t - 1]);
        (with_active(a, nw), newly_flags(a.len(), nw))
    }
}

/// Independent Cascade over a run: the active set only grows, so the reach
/// never decreases; a round leaves the active set as it was exactly when it
/// activates no node; and a round in which every coin drawn failed (as with
/// a probability of at most 0) activates none.
pub proof fn lemma_ic_run(net: FollowGraph, seeds: Seq<bool>, coins: Seq<Seq<bool>>, t: nat)
    requires
        net.wf(),
        seeds.len() == net.node_count(),
    ensures
        ({
            let (a, f) = ic_state(net, seeds, coins, t);
            let (a1, f1) = ic_state(net, seeds, coins, t + 1);
            let nw = ic_newly(net, a, f, coins[t as int]);
            &&& a.len() == seeds.len() && f.len() == seeds.len()
            &&& forall|v: int| 0 <= v < a.len() && #[trigger] a[v] ==> a1[v]
            &&& count_true(a) <= count_true(a1)
            &&& (a1 == a <==> nw.len() == 0)
            &&& (cascade_state(round_tries(net, a, f), round_tries(net, a, f).len() as int, coins[t as int]).1
                <= coins[t as int].len() && (forall|i: int|
                0 <= i < coins[t as int].len() ==> !(#[trigger] coins[t as int][i]))) ==> a1 == a
        }),
    decreases t,
{
    if t > 0 {
        lemma_ic_run(net, seeds, coins, (t - 1) as nat);
    }
    let (a, f) = ic_state(net, seeds, coins, t);
    let (a1, f1) = ic_state(net, seeds, coins, t + 1);
    let tries = round_tries(net, a, f);
    let nw = ic_newly(net, a, f, coins[t as int]);
    assert(a.len() == seeds.len() && f.len() == seeds.len()) by {
        if t > 0 {
            let (ap, fp) = ic_state(net, seeds, coins, (t - 1) as nat);
        }
    }
    assert(a1 == with_active(a, nw));
    lemma_count_true_monotone(a, a1);
    lemma_round_tries_inactive(net, a, f);
    lemma_cascade_state_distinct(tries, tries.len() as int, coins[t as int]);
    assert(tries.take(tries.len() as int) =~= tries);
    if nw.len() == 0 {
        assert(a1 =~= a);
    } else {
        let w = nw[0];
        assert(nw.contains(w));
        assert(tries.contains(w));
        let i = choose|i: int| 0 <= i < tries.len() && tries[i] == w;
        assert(!a[w as int]);
        assert(a1[w as int]);
    }
    if cascade_state(tries, tries.len() as int, coins[t as int]).1 <= coins[t as int].len() && (forall|i: int|
        0 <= i < coins[t as int].len() ==> !(#[trigger] coins[t as int][i])) {
        lemma_failed_coins(tries, coins[t as int]);
    }
}

/// After each round of an Independent Cascade run, the frontier is exactly
/// the set of nodes that round activated: a node tries its followers in one
/// round only, the round after its activation.
pub proof fn lemma_ic_frontier(net: FollowGraph, seeds: Seq<bool>, coins: Seq<Seq<bool>>, t: nat)
    requires
        net.wf(),
        seeds.len() == net.node_count(),
        net.node_count() <= u64::MAX,
    ensures
        ic_state(net, seeds, coins, t + 1).1.len() == seeds.len(),
        forall|v: int|
            0 <= v < seeds.len() ==> #[trigger] ic_state(net, seeds, coins, t + 1).1[v] == (ic_state(
                net,
                seeds,
                coins,
                t + 1,
            ).0[v] && !ic_state(net, seeds, coins, t).0[v]),
{
    lemma_ic_run(net, seeds, coins, t);
    let (a, f) = ic_state(net, seeds, coins, t);
    let tries = round_tries(net, a, f);
    let nw = ic_newly(net, a, f, coins[t as int]);
    lemma_round_tries_inactive(net, a, f);
    lemma_cascade_state_distinct(tries, tries.len() as int, coins[t as int]);
    assert(tries.take(tries.len() as int) =~= tries);
    assert(ic_state(net, seeds, coins, t + 1) == (with_active(a, nw), newly_flags(a.len(), nw)));
    assert forall|v: int| 0 <= v < seeds.len() implies #[trigger] ic_state(net, seeds, coins, t + 1).1[v] == (
    ic_state(net, seeds, coins, t + 1).0[v] && !a[v]) by {
        assert(a.len() == seeds.len());
        assert(ic_state(net, seeds, coins, t + 1).1[v] == newly_flags(a.len(), nw)[v]);
        assert(ic_state(net, seeds, coins, t + 1).0[v] == with_active(a, nw)[v]);
        if nw.contains(v as u64) {
            assert(nw == cascade_state(tries, tries.len() as int, coins[t as int]).0);
            assert(tries.contains(v as u64));
            let i = choose|i: int| 0 <= i < tries.len() && tries[i] == v as u64;
            assert(!a[tries[i] as int]);
            assert((v as u64) as int == v);
            assert(!a[v]);
        }
    }
}

/// An Independent Cascade run in progress, from the seeds; its rounds are
/// played with [`CascadeRound`], between [`CascadeRun::begin_round`] and
/// [`CascadeRun::end_round`].
pub struct CascadeRun {
    pub active: Vec<bool>,
    pub frontier: Vec<bool>,
    /// The number of active nodes after each round (round 0 is the seeds).
    pub reached_counts: Vec<usize>,
    /// The rounds played.
    pub round: usize,
    /// The last round activated no node.
    pub converged: bool,
    pub seeds: Ghost<Seq<bool>>,
    /// The coins drawn in each round.
    pub coins: Ghost<Seq<Seq<bool>>>,
}

impl CascadeRun {
    /// The run agrees with the rounds played on `net`.
    pub open spec fn wf(&self, net: FollowGraph) -> bool {
        &&& net.wf()
        &&& self.seeds@.len() == net.node_count()
        &&& self.coins@.len() == self.round
        &&& (self.active@, self.frontier@) == ic_state(net, self.seeds@, self.coins@, self.round as nat)
        &&& self.reached_counts@.len() == self.round + 1
        &&& forall|t: int|
            0 <= t <= self.round ==> #[trigger] self.reached_counts@[t] == count_true(
                ic_state(net, self.seeds@, self.coins@, t as nat).0,
            )
        &&& forall|t: int|
            0 <= t < self.round ==> #[trigger] self.reached_counts@[t] <= self.reached_counts@[t + 1]
        &&& self.converged == (self.round >= 1 && ic_state(net, self.seeds@, self.coins@, self.round as nat).0
            == ic_state(net, self.seeds@, self.coins@, (self.round - 1) as nat).0)
    }

    /// A run whose seeds, and first frontier, are the first `seed_count`
    /// nodes (at most all of them).
    pub fn start(net: &FollowGraph, seed_count: usize) -> (r: CascadeRun)
        requires
            net.wf(),
        ensures
            r.wf(*net),
            r.round == 0,
            !r.converged,
            r.seeds@ == crate::baseline::seed_set(
                net.node_count(),
                if seed_count < net.node_count() {
                    seed_count as nat
                } else {
                    net.node_count()
                },
            ),
            r.reached_counts@[0] == if seed_count < net.node_count() {
                seed_count as nat
            } else {
                net.node_count()
            },
    {
        let n = net.n();
        let active = crate::baseline::seed_flags(n, seed_count);
        let frontier = crate::baseline::seed_flags(n, seed_count);
        let ghost k = if seed_count < n {
            seed_count as nat
        } else {
            n as nat
        };
        proof {
            crate::baseline::lemma_seed_count(n as nat, k);
        }
        let c = crate::baseline::count_flags(&active);
        let mut counts: Vec<usize> = Vec::new();
        counts.push(c);
        CascadeRun {
            active,
            frontier,
            reached_counts: counts,
            round: 0,
            converged: false,
            seeds: Ghost(crate::baseline::seed_set(n as nat, k)),
            coins: Ghost(Seq::empty()),
        }
    }

    /// Starts the next round.
    pub fn begin_round(&self, net: &FollowGraph) -> (r: CascadeRound)
        requires
            self.wf(*net),
        ensures
            r.wf(),
            r.tries@ == round_tries(*net, self.active@, self.frontier@),
            r.pos == 0,
            r.coins@.len() == 0,
    {
        proof {
            lemma_ic_run(*net, self.seeds@, self.coins@, self.round as nat);
        }
        CascadeRound::start(net, &self.active, &self.frontier)
    }

    /// Ends a round played to its end: its activated nodes become active and
    /// form the next frontier. The run converges when the round activated
    /// no node, which is the case when every coin drawn failed; the reach
    /// never decreases.
    pub fn end_round(&mut self, net: &FollowGraph, r: CascadeRound)
        requires
            old(self).wf(*net),
            r.wf(),
            r.pos == r.tries.len(),
            r.tries@ == round_tries(*net, old(self).active@, old(self).frontier@),
        ensures
            final(self).wf(*net),
            final(self).round == old(self).round + 1,
            final(self).seeds == old(self).seeds,
            final(self).coins@ == old(self).coins@.push(r.coins@),
            final(self).reached_counts@.take(old(self).reached_counts@.len() as int)
                == old(self).reached_counts@,
            old(self).reached_counts@.last() <= final(self).reached_counts@.last(),
            final(self).converged == (cascade_newly(r.tries@, r.coins@).len() == 0),
            (forall|i: int| 0 <= i < r.coins@.len() ==> !(#[trigger] r.coins@[i])) ==> final(self).converged,
            final(self).active@.len() == old(self).active@.len(),
            final(self).frontier@.len() == old(self).active@.len(),
            forall|v: int|
                0 <= v < old(self).active@.len() ==> #[trigger] final(self).frontier@[v] == (final(self).active@[v]
                    && !old(self).active@[v]),
            forall|v: int|
                0 <= v < old(self).active@.len() && #[trigger] old(self).active@[v] ==> final(self).active@[v],
    {
        let ghost a0 = self.active@;
        let ghost f0 = self.frontier@;
        let ghost c1 = self.coins@.push(r.coins@);
        let ghost t = self.round as nat;
        proof {
            lemma_ic_run(*net, self.seeds@, self.coins@, t);
            lemma_round_tries_inactive(*net, a0, f0);
            assert(r.tries@.take(r.pos as int) =~= r.tries@);
            lemma_ic_state_prefix(*net, self.seeds@, self.coins@, c1, t);
            lemma_ic_run(*net, self.seeds@, c1, t);
        }
        let na = self.active.len();
        let rounds_so_far = self.reached_counts.len();
        assert(rounds_so_far == self.round + 1);
        let (next, newly) = r.finish(&mut self.active);
        self.frontier = next;
        self.round = rounds_so_far;
        self.coins = Ghost(c1);
        proof {
            assert(c1[t as int] == r.coins@);
            assert(self.active@ =~= ic_state(*net, self.seeds@, c1, t + 1).0);
            assert(self.frontier@ =~= ic_state(*net, self.seeds@, c1, t + 1).1);
            crate::world::lemma_count_true_bound(self.active@);
        }
        let c = crate::baseline::count_flags(&self.active);
        let ghost before = self.reached_counts@;
        self.reached_counts.push(c);
        self.converged = newly == 0;
        proof {
            assert forall|j: int| 0 <= j <= self.round implies #[trigger] self.reached_counts@[j] == count_true(
                ic_state(*net, self.seeds@, c1, j as nat).0,
            ) by {
                if j < self.round {
                    lemma_ic_state_prefix(*net, self.seeds@, old(self).coins@, c1, j as nat);
                    assert(self.reached_counts@[j] == before[j]);
                }
            }
            assert(self.reached_counts@.take(before.len() as int) =~= before);
            assert forall|j: int| 0 <= j < self.round implies #[trigger] self.reached_counts@[j] <= self.reached_counts@[j + 1] by {
                if j + 1 < self.round {
                    assert(self.reached_counts@[j] == before[j]);
                    assert(self.reached_counts@[j + 1] == before[j + 1]);
                }
            }
            lemma_ic_state_prefix(*net, self.seeds@, old(self).coins@, c1, t);
            lemma_ic_frontier(*net, self.seeds@, c1, t);
            assert(newly == 0 <==> cascade_newly(r.tries@, r.coins@).len() == 0);
            if forall|i: int| 0 <= i < r.coins@.len() ==> !(#[trigger] r.coins@[i]) {
                lemma_failed_coins(r.tries@, r.coins@);
            }
        }
    }
}

/// The states of two coin histories that agree on the first `t` rounds.
pub open spec fn ic_state_prefix_agrees(net: FollowGraph, seeds: Seq<bool>, c0: Seq<Seq<bool>>, c1: Seq<Seq<bool>>, t: nat) -> bool {
    ic_state(net, seeds, c0, t) == ic_state(net, seeds, c1, t)
}

/// The state after `t` rounds depends only on the coins of those rounds.
pub proof fn lemma_ic_state_prefix(net: FollowGraph, seeds: Seq<bool>, c0: Seq<Seq<bool>>, c1: Seq<Seq<bool>>, t: nat)
    requires
        t <= c0.len(),
        c0.len() <= c1.len(),
        forall|j: int| 0 <= j < c0.len() ==> #[trigger] c1[j] == c0[j],
    ensures
        ic_state_prefix_agrees(net, seeds, c0, c1, t),
    decreases t,
{
    if t > 0 {
        lemma_ic_state_prefix(net, seeds, c0, c1, (t - 1) as nat);
        assert(c1[t - 1] == c0[t - 1]);
    }
}

} // verus!
