//! The vocabulary side of the influence score: the word sets of texts and
//! their overlap, from which the relevance of a message to an agent (the
//! Jaccard index of the two word sets) is computed.

use vstd::prelude::*;

use crate::text::{chars_eq, chars_of, lower, seqs, split, split_chars, string_of, to_lower, Sep};

verus! {

/// The distinct words of `words` that are longer than two characters,
/// lower-cased, in order of first occurrence.
pub open spec fn token_seq(words: Seq<Seq<char>>) -> Seq<Seq<char>>
    decreases words.len(),
{
    if words.len() == 0 {
        Seq::empty()
    } else {
        let r = token_seq(words.drop_last());
        let t = lower(words.last());
        if words.last().len() > 2 && !r.contains(t) {
            r.push(t)
        } else {
            r
        }
    }
}

/// The word set of a text: its ASCII-alphanumeric runs longer than two
/// characters, lower-cased, each once.
pub open spec fn token_set_of(text: Seq<char>) -> Seq<Seq<char>> {
    token_seq(split(text, Sep::NotAlnum))
}

pub proof fn lemma_token_seq_distinct(words: Seq<Seq<char>>)
    ensures
        token_seq(words).no_duplicates(),
    decreases words.len(),
{
    if words.len() > 0 {
        lemma_token_seq_distinct(words.drop_last());
        let r = token_seq(words.drop_last());
        let t = lower(words.last());
        if words.last().len() > 2 && !r.contains(t) {
            let q = r.push(t);
            assert forall|i: int, j: int|
                0 <= i < q.len() && 0 <= j < q.len() && i != j implies q[i] != q[j] by {
                if i == r.len() {
                    assert(r[j] == q[j]);
                } else if j == r.len() {
                    assert(r[i] == q[i]);
                }
            }
        }
    }
}

fn contains_word(v: &Vec<Vec<char>>, w: &Vec<char>) -> (r: bool)
    ensures
        r == seqs(v@).contains(w@),
{
    for i in 0..v.len()
        invariant
            forall|j: int| 0 <= j < i ==> seqs(v@)[j] != w@,
    {
        if chars_eq(&v[i], w) {
            assert(seqs(v@)[i as int] == w@);
            return true;
        }
    }
    false
}

/// The word set of a text (its ASCII-alphanumeric runs longer than two
/// characters, lower-cased), each word once.
pub fn tokens(text: &str) -> (r: Vec<String>)
    ensures
        r.len() == token_set_of(text@).len(),
        forall|i: int| 0 <= i < r.len() ==> (#[trigger] r[i])@ == token_set_of(text@)[i],
        token_set_of(text@).no_duplicates(),
{
    let words = split_chars(&chars_of(text), Sep::NotAlnum);
    let ghost all = seqs(words@);
    let mut found: Vec<Vec<char>> = Vec::new();
    for i in 0..words.len()
        invariant
            all == seqs(words@),
            all == split(text@, Sep::NotAlnum),
            seqs(found@) == token_seq(all.take(i as int)),
    {
        assert(all.take(i + 1).drop_last() =~= all.take(i as int));
        assert(all.take(i + 1).last() == words[i as int]@);
        let w = &words[i];
        if w.len() > 2 {
            let t = to_lower(w);
            if !contains_word(&found, &t) {
                let ghost before = seqs(found@);
                found.push(t);
                assert(seqs(found@) =~= before.push(lower(w@)));
            }
        }
    }
    assert(all.take(all.len() as int) =~= all);
    proof {
        lemma_token_seq_distinct(all);
    }
    let mut r: Vec<String> = Vec::new();
    for i in 0..found.len()
        invariant
            r.len() == i,
            forall|j: int| 0 <= j < i ==> (#[trigger] r[j])@ == found[j]@,
    {
        r.push(string_of(&found[i]));
    }
    r
}

/// How many words of `a` are also in `b`.
pub open spec fn shared_count(a: Seq<Seq<char>>, b: Seq<Seq<char>>) -> nat
    decreases a.len(),
{
    if a.len() == 0 {
        0
    } else {
        shared_count(a.drop_last(), b) + if b.contains(a.last()) {
            1nat
        } else {
            0nat
        }
    }
}

/// Counting the words of a distinct `a` that occur in `b` counts the
/// intersection of the two word sets.
pub proof fn lemma_shared_count_intersection(a: Seq<Seq<char>>, b: Seq<Seq<char>>)
    requires
        a.no_duplicates(),
    ensures
        shared_count(a, b) == a.to_set().intersect(b.to_set()).len(),
    decreases a.len(),
{
    broadcast use vstd::seq_lib::seq_to_set_is_finite;

    if a.len() == 0 {
        assert(a.to_set().intersect(b.to_set()) =~= Set::<Seq<char>>::empty());
    } else {
        let a0 = a.drop_last();
        let x = a.last();
        assert(a0.no_duplicates()) by {
            assert forall|i: int, j: int| 0 <= i < a0.len() && 0 <= j < a0.len() && i != j implies a0[i] != a0[j] by {
                assert(a0[i] == a[i] && a0[j] == a[j]);
            }
        }
        lemma_shared_count_intersection(a0, b);
        assert(!a0.contains(x)) by {
            if a0.contains(x) {
                let i = choose|i: int| 0 <= i < a0.len() && a0[i] == x;
                assert(a[i] == a[a.len() - 1]);
            }
        }
        assert(a.to_set() =~= a0.to_set().insert(x)) by {
            assert(a =~= a0 + seq![x]);
            Seq::<Seq<char>>::lemma_to_set_insert_commutes(a0, x);
        }
        let s0 = a0.to_set().intersect(b.to_set());
        assert(s0.finite());
        assert(!s0.contains(x));
        if b.contains(x) {
            assert(b.to_set().contains(x));
            assert(a.to_set().intersect(b.to_set()) =~= s0.insert(x));
        } else {
            assert(!b.to_set().contains(x));
            assert(a.to_set().intersect(b.to_set()) =~= s0);
        }
    }
}

/// For two word sets, each word once, the overlap counts are the sizes of
/// their intersection and of their union.
pub proof fn lemma_overlap_sets(a: Seq<Seq<char>>, b: Seq<Seq<char>>)
    requires
        a.no_duplicates(),
        b.no_duplicates(),
    ensures
        shared_count(a, b) == a.to_set().intersect(b.to_set()).len(),
        a.len() + b.len() - shared_count(b, a) == a.to_set().union(b.to_set()).len(),
{
    broadcast use vstd::seq_lib::seq_to_set_is_finite;

    lemma_shared_count_intersection(a, b);
    lemma_shared_count_intersection(b, a);
    a.unique_seq_to_set();
    b.unique_seq_to_set();
    assert(b.to_set().intersect(a.to_set()) =~= a.to_set().intersect(b.to_set()));
    vstd::set_lib::lemma_set_intersect_union_lens(a.to_set(), b.to_set());
}

/// The views of a vector of strings.
pub open spec fn views(v: Seq<String>) -> Seq<Seq<char>> {
    v.map_values(|s: String| s@)
}

fn contains_string(v: &Vec<String>, w: &String) -> (r: bool)
    ensures
        r == views(v@).contains(w@),
{
    let wc = chars_of(w.as_str());
    for i in 0..v.len()
        invariant
            wc@ == w@,
            forall|j: int| 0 <= j < i ==> views(v@)[j] != w@,
    {
        let c = chars_of(v[i].as_str());
        if chars_eq(&c, &wc) {
            assert(views(v@)[i as int] == w@);
            return true;
        }
    }
    false
}

fn count_shared(a: &Vec<String>, b: &Vec<String>) -> (c: usize)
    ensures
        c == shared_count(views(a@), views(b@)),
        c <= a.len(),
{
    let mut c: usize = 0;
    for i in 0..a.len()
        invariant
            c == shared_count(views(a@).take(i as int), views(b@)),
            c <= i,
    {
        assert(views(a@).take(i + 1).drop_last() =~= views(a@).take(i as int));
        assert(views(a@).take(i + 1).last() == a[i as int]@);
        if contains_string(b, &a[i]) {
            c += 1;
        }
    }
    assert(views(a@).take(a.len() as int) =~= views(a@));
    c
}

/// The overlap of two word sets: the number of shared words (the size of
/// the intersection) and the number of distinct words in either (the size
/// of the union, `|a| + |b| - shared`). The relevance of a message to an
/// agent is `shared / union`, or 0 when either set is empty.
pub fn token_overlap(a: &Vec<String>, b: &Vec<String>) -> (r: (usize, usize))
    requires
        a.len() + b.len() <= usize::MAX,
    ensures
        r.0 == shared_count(views(a@), views(b@)),
        r.1 == a.len() + b.len() - shared_count(views(b@), views(a@)),
        views(a@).no_duplicates() && views(b@).no_duplicates() ==> {
            &&& r.0 == views(a@).to_set().intersect(views(b@).to_set()).len()
            &&& r.1 == views(a@).to_set().union(views(b@).to_set()).len()
        },
{
    proof {
        if views(a@).no_duplicates() && views(b@).no_duplicates() {
            lemma_overlap_sets(views(a@), views(b@));
        }
    }
    let inter = count_shared(a, b);
    let from_b = count_shared(b, a);
    (inter, a.len() + b.len() - from_b)
}

} // verus!
