//! The directed follow-graph over agents `0..n`. An arc `a -> b` means
//! "a follows b", so the followers of `b` (its in-neighbours) are the agents
//! that receive what `b` posts.

use vstd::prelude::*;

verus! {

/// Whether `x` occurs in `v`.
pub fn contains_id(v: &Vec<u64>, x: u64) -> (r: bool)
    ensures
        r == v@.contains(x),
{
    for i in 0..v.len()
        invariant
            forall|j: int| 0 <= j < i ==> v@[j] != x,
    {
        if v[i] == x {
            assert(v@[i as int] == x);
            return true;
        }
    }
    false
}

/// A directed graph on the nodes `0..follows.len()`; `follows[a]` lists the
/// nodes that `a` follows (its out-neighbours), each at most once.
pub struct FollowGraph {
    pub follows: Vec<Vec<u64>>,
}

impl FollowGraph {
    /// Every listed node exists and no arc is listed twice.
    pub open spec fn wf(&self) -> bool {
        forall|a: int|
            0 <= a < self.follows.len() ==> {
                &&& (#[trigger] self.follows[a])@.no_duplicates()
                &&& forall|j: int|
                    0 <= j < self.follows[a]@.len() ==> self.follows[a]@[j] < self.follows.len()
            }
    }

    /// The number of nodes.
    pub open spec fn node_count(&self) -> nat {
        self.follows@.len()
    }

    /// The arc `a -> b`: `a` follows `b`.
    pub open spec fn arc(&self, a: u64, b: u64) -> bool {
        &&& (a as int) < self.follows.len()
        &&& self.follows[a as int]@.contains(b)
    }

    /// The followers of `b` among the nodes `0..k`, in increasing order.
    pub open spec fn followers_below(&self, b: u64, k: int) -> Seq<u64>
        decreases k,
    {
        if k <= 0 {
            Seq::empty()
        } else if self.arc((k - 1) as u64, b) {
            self.followers_below(b, k - 1).push((k - 1) as u64)
        } else {
            self.followers_below(b, k - 1)
        }
    }

    /// The followers of `b` (its in-neighbours), in increasing order.
    pub open spec fn spec_followers(&self, b: u64) -> Seq<u64> {
        self.followers_below(b, self.follows.len() as int)
    }

    /// The followers of `b` below `k` are exactly the nodes below `k` that
    /// follow `b`, each once, in increasing order.
    pub proof fn lemma_followers_below(&self, b: u64, k: int)
        requires
            0 <= k <= self.follows.len(),
        ensures
            forall|x: u64|
                #[trigger] self.followers_below(b, k).contains(x) <==> ((x as int) < k && self.arc(
                    x,
                    b,
                )),
            self.followers_below(b, k).no_duplicates(),
            forall|i: int, j: int|
                0 <= i < j < self.followers_below(b, k).len() ==> self.followers_below(b, k)[i]
                    < self.followers_below(b, k)[j],
        decreases k,
    {
        if k > 0 {
            self.lemma_followers_below(b, k - 1);
            let p = self.followers_below(b, k - 1);
            let last = (k - 1) as u64;
            assert(last as int == k - 1);
            if self.arc(last, b) {
                let q = p.push(last);
                assert(q.len() == p.len() + 1);
                assert(q[p.len() as int] == last);
                assert forall|x: u64| q.contains(x) <==> ((x as int) < k && self.arc(x, b)) by {
                    if x == last {
                        assert(q[p.len() as int] == x);
                    } else {
                        if q.contains(x) {
                            let i = choose|i: int| 0 <= i < q.len() && q[i] == x;
                            assert(i != p.len());
                            assert(p[i] == x);
                            assert(p.contains(x));
                        }
                        if (x as int) < k && self.arc(x, b) {
                            assert((x as int) < k - 1);
                            assert(p.contains(x));
                            let i = choose|i: int| 0 <= i < p.len() && p[i] == x;
                            assert(q[i] == x);
                        }
                    }
                }
                assert forall|i: int, j: int| 0 <= i < j < q.len() implies q[i] < q[j] by {
                    if j == p.len() {
                        assert(q[i] == p[i]);
                        assert(p.contains(p[i]));
                    } else {
                        assert(q[i] == p[i] && q[j] == p[j]);
                    }
                }
            }
        }
    }

    /// Every follower of `b` exists and follows `b`, and every node that
    /// follows `b` is listed once.
    pub proof fn lemma_followers(&self, b: u64)
        ensures
            forall|x: u64| #[trigger] self.spec_followers(b).contains(x) <==> self.arc(x, b),
            self.spec_followers(b).no_duplicates(),
            forall|i: int|
                0 <= i < self.spec_followers(b).len() ==> (self.spec_followers(b)[i] as int)
                    < self.follows.len(),
    {
        self.lemma_followers_below(b, self.follows.len() as int);
        let f = self.spec_followers(b);
        assert forall|i: int| 0 <= i < f.len() implies (f[i] as int) < self.follows.len() by {
            assert(f.contains(f[i]));
        }
    }

    /// A graph with the nodes `0..n` and no arc.
    pub fn with_nodes(n: usize) -> (g: FollowGraph)
        ensures
            g.wf(),
            g.node_count() == n,
            forall|a: u64, b: u64| !g.arc(a, b),
    {
        let mut follows: Vec<Vec<u64>> = Vec::new();
        for i in 0..n
            invariant
                follows.len() == i,
                forall|a: int| 0 <= a < i ==> (#[trigger] follows[a])@.len() == 0,
        {
            follows.push(Vec::new());
        }
        FollowGraph { follows }
    }

    /// The number of nodes.
    pub fn n(&self) -> (r: usize)
        ensures
            r == self.node_count(),
    {
        self.follows.len()
    }

    /// Adds the arc `a -> b` ("a follows b"); an arc already present stays once.
    pub fn add_edge(&mut self, a: u64, b: u64)
        requires
            old(self).wf(),
            (a as int) < old(self).node_count(),
            (b as int) < old(self).node_count(),
        ensures
            final(self).wf(),
            final(self).node_count() == old(self).node_count(),
            forall|x: u64, y: u64|
                final(self).arc(x, y) <==> (old(self).arc(x, y) || (x == a && y == b)),
            final(self).follows[a as int]@ == if old(self).follows[a as int]@.contains(b) {
                old(self).follows[a as int]@
            } else {
                old(self).follows[a as int]@.push(b)
            },
            forall|x: int|
                0 <= x < final(self).follows.len() && x != a ==> #[trigger] final(self).follows[x]
                    == old(self).follows[x],
    {
        let ai = a as usize;
        if !contains_id(&self.follows[ai], b) {
            self.follows[ai].push(b);
            proof {
                assert forall|x: u64, y: u64|
                    self.arc(x, y) <==> (old(self).arc(x, y) || (x == a && y == b)) by {
                    if x == a {
                        let row = old(self).follows[a as int]@;
                        assert(self.follows[a as int]@ == row.push(b));
                        if row.contains(y) {
                            let i = choose|i: int| 0 <= i < row.len() && row[i] == y;
                            assert(row.push(b)[i] == y);
                        }
                        if row.push(b).contains(y) && y != b {
                            let i = choose|i: int| 0 <= i < row.len() + 1 && row.push(b)[i] == y;
                            assert(row[i] == y);
                        }
                        assert(row.push(b)[row.len() as int] == b);
                    }
                }
                assert forall|x: int| 0 <= x < self.follows.len() implies {
                    &&& (#[trigger] self.follows[x])@.no_duplicates()
                    &&& forall|j: int|
                        0 <= j < self.follows[x]@.len() ==> self.follows[x]@[j]
                            < self.follows.len()
                } by {
                    if x == a as int {
                        let row = old(self).follows[x]@;
                        assert(self.follows[x]@ == row.push(b));
                        assert forall|i: int, j: int|
                            0 <= i < row.len() + 1 && 0 <= j < row.len() + 1 && i != j implies row.push(
                            b,
                        )[i] != row.push(b)[j] by {
                            if i == row.len() {
                                assert(row.contains(row[j]));
                            } else if j == row.len() {
                                assert(row.contains(row[i]));
                            }
                        }
                    }
                }
            }
        }
    }

    /// The followers of `b` (the nodes that follow `b`), in increasing order.
    pub fn in_neighbors(&self, b: u64) -> (r: Vec<u64>)
        ensures
            r@ == self.spec_followers(b),
    {
        let n = self.follows.len();
        let mut r: Vec<u64> = Vec::new();
        for a in 0..n
            invariant
                n == self.follows.len(),
                r@ == self.followers_below(b, a as int),
        {
            if contains_id(&self.follows[a], b) {
                r.push(a as u64);
            }
        }
        r
    }

    /// The nodes that `a` follows (its out-neighbours).
    pub fn out_neighbors(&self, a: u64) -> (r: Vec<u64>)
        requires
            (a as int) < self.node_count(),
        ensures
            r@ == self.follows[a as int]@,
    {
        let n = self.follows.len();
        assert((a as usize) as int == a as int);
        let row = &self.follows[a as usize];
        let mut r: Vec<u64> = Vec::new();
        for i in 0..row.len()
            invariant
                r@ == row@.take(i as int),
        {
            r.push(row[i]);
            assert(row@.take(i + 1) =~= row@.take(i as int).push(row@[i as int]));
        }
        assert(row@.take(row.len() as int) =~= row@);
        r
    }
}

} // verus!
