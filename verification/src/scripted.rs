//! The replies of the scripted offline model, which stands in for a live
//! model in smoke runs. It answers a perception prompt with the numbers
//! `1, 2, 3`, and a contagion prompt in the strict format: an agent that
//! received something turns positive and posts, with an emotion spread by
//! its age; one that received nothing stays calm, negative and inactive.
//! The reply depends on the prompt alone, so runs stay reproducible.

use vstd::prelude::*;

use crate::parse::{content_of, lemma_strict_reply_read, parse_decimal, quantity_of, strict_reply};
use crate::text::{
    chars_of, digits_value, is_digit, lemma_split_pieces, lower, occurs_at, occurs_at_exec, occurs_in,
    occurs_in_exec, seqs, split, split_chars, sub_chars, Sep,
};
use crate::world::{Attitude, Behavior, Emotion};

verus! {

/// The number of positions below `k` at which `p` occurs in `s`.
pub open spec fn occurrences_below(s: Seq<char>, p: Seq<char>, k: int) -> nat
    decreases k,
{
    if k <= 0 {
        0
    } else {
        occurrences_below(s, p, k - 1) + if occurs_at(s, p, k - 1) {
            1nat
        } else {
            0nat
        }
    }
}

/// The number of positions at which `p` occurs in `s` (for a pattern that
/// cannot overlap itself, the count of `str::matches`).
pub open spec fn occurrences(s: Seq<char>, p: Seq<char>) -> nat {
    occurrences_below(s, p, s.len() as int + 1)
}

/// The first position at which `p` occurs in `s`, if any.
pub open spec fn first_occurrence(s: Seq<char>, p: Seq<char>) -> Option<int> {
    if occurs_in(s, p) {
        Some(choose|i: int| occurs_at(s, p, i) && forall|j: int| 0 <= j < i ==> !occurs_at(s, p, j))
    } else {
        None
    }
}

/// The text before the first `p`, or all of `s` when `p` does not occur.
pub open spec fn before_first(s: Seq<char>, p: Seq<char>) -> Seq<char> {
    match first_occurrence(s, p) {
        Some(i) => s.take(i),
        None => s,
    }
}

/// The last non-empty piece of `pieces`, if any.
pub open spec fn last_nonempty(pieces: Seq<Seq<char>>) -> Option<Seq<char>>
    decreases pieces.len(),
{
    if pieces.len() == 0 {
        None
    } else if pieces.last().len() > 0 {
        Some(pieces.last())
    } else {
        last_nonempty(pieces.drop_last())
    }
}

/// The age read from a prompt: the last run of digits before the first
/// `-year-old`, or 30 when there is none or it does not fit in `u32`.
pub open spec fn prompt_age(prompt: Seq<char>) -> nat {
    match last_nonempty(split(before_first(prompt, "-year-old"@), Sep::NotDigit)) {
        Some(d) => if digits_value(d) <= u32::MAX {
            digits_value(d)
        } else {
            30
        },
        None => 30,
    }
}

/// The emotion the scripted model answers with: calm when nothing was
/// received, else intense for the ages `1 mod 3` and moderate otherwise.
pub open spec fn scripted_emotion(received: nat, age: nat) -> Emotion {
    if received == 0 {
        Emotion::Calm
    } else if age % 3 == 1 {
        Emotion::Intense
    } else {
        Emotion::Moderate
    }
}

/// The reply of the scripted model to a prompt.
pub open spec fn scripted_reply_of(prompt: Seq<char>) -> Seq<char> {
    if occurs_in(prompt, "Answer with ONLY the numbers"@) {
        "1, 2, 3"@
    } else {
        let received = occurrences(prompt, "user "@);
        let e = scripted_emotion(received, prompt_age(prompt));
        if received >= 1 {
            strict_reply(e, Attitude::Positive, Behavior::Post, "I agree, this is important to share."@)
        } else {
            strict_reply(e, Attitude::Negative, Behavior::Inactive, ""@)
        }
    }
}

fn count_occurrences(s: &Vec<char>, p: &Vec<char>) -> (c: usize)
    requires
        p@.len() > 0,
    ensures
        c == occurrences(s@, p@),
{
    let mut c: usize = 0;
    let n = s.len();
    for i in 0..n
        invariant
            n == s.len(),
            c == occurrences_below(s@, p@, i as int),
            c <= i,
    {
        if occurs_at_exec(s, p, i) {
            c += 1;
        }
    }
    assert(!occurs_at(s@, p@, n as int));
    c
}

fn find_first(s: &Vec<char>, p: &Vec<char>) -> (r: Option<usize>)
    ensures
        match r {
            Some(i) => first_occurrence(s@, p@) == Some(i as int) && i <= s.len(),
            None => first_occurrence(s@, p@) is None,
        },
{
    let n = s.len();
    for i in 0..n
        invariant
            n == s.len(),
            forall|j: int| 0 <= j < i ==> !occurs_at(s@, p@, j),
    {
        if occurs_at_exec(s, p, i) {
            proof {
                lemma_first_occurrence_at(s@, p@, i as int);
            }
            return Some(i);
        }
    }
    if occurs_at_exec(s, p, n) {
        proof {
            lemma_first_occurrence_at(s@, p@, n as int);
        }
        return Some(n);
    }
    proof {
        assert forall|m: int| !occurs_at(s@, p@, m) by {
            if 0 <= m && m <= n {
            }
        }
    }
    None
}

proof fn lemma_first_occurrence_at(s: Seq<char>, p: Seq<char>, i: int)
    requires
        occurs_at(s, p, i),
        forall|j: int| 0 <= j < i ==> !occurs_at(s, p, j),
    ensures
        first_occurrence(s, p) == Some(i),
{
    let w = choose|w: int| occurs_at(s, p, w) && forall|j: int| 0 <= j < w ==> !occurs_at(s, p, j);
    assert(occurs_at(s, p, w) && forall|j: int| 0 <= j < w ==> !occurs_at(s, p, j));
    if w > i {
        assert(!occurs_at(s, p, i));
    } else if w < i {
        assert(!occurs_at(s, p, w));
    }
}

/// The age that a prompt gives (see [`prompt_age`]).
fn age_of(prompt: &Vec<char>) -> (a: u32)
    ensures
        a == prompt_age(prompt@),
{
    let pat = chars_of("-year-old");
    let prefix = match find_first(prompt, &pat) {
        Some(i) => sub_chars(prompt, 0, i),
        None => sub_chars(prompt, 0, prompt.len()),
    };
    proof {
        assert(prompt@.subrange(0, prompt@.len() as int) =~= prompt@);
    }
    let pieces = split_chars(&prefix, Sep::NotDigit);
    let ghost all = seqs(pieces@);
    proof {
        lemma_split_pieces(prefix@, Sep::NotDigit);
    }
    let mut k = pieces.len();
    proof {
        assert(all.take(all.len() as int) =~= all);
    }
    while k > 0 && pieces[k - 1].len() == 0
        invariant
            k <= pieces.len(),
            all == seqs(pieces@),
            all == split(prefix@, Sep::NotDigit),
            last_nonempty(all) == last_nonempty(all.take(k as int)),
        decreases k,
    {
        proof {
            let t = all.take(k as int);
            assert(t.last() == pieces[k - 1]@);
            assert(t.drop_last() =~= all.take(k - 1));
        }
        k -= 1;
    }
    if k == 0 {
        proof {
            assert(all.take(0) =~= Seq::<Seq<char>>::empty());
        }
        return 30;
    }
    let d = &pieces[k - 1];
    proof {
        assert(all.take(k as int).last() == d@);
        assert forall|j: int| 0 <= j < d@.len() implies #[trigger] is_digit(d@[j]) by {
            assert(split(prefix@, Sep::NotDigit)[k - 1][j] == d@[j]);
        }
    }
    match parse_decimal(d) {
        Some(v) => if v <= 4294967295 {
            v as u32
        } else {
            30
        },
        None => 30,
    }
}

/// A contagion prompt in which the scripted model sees a received message
/// gets a reply that reads back as a positive post of its fixed text, with
/// the emotion its age gives.
pub proof fn lemma_scripted_reply_read(prompt: Seq<char>)
    requires
        !occurs_in(prompt, "Answer with ONLY the numbers"@),
        occurrences(prompt, "user "@) >= 1,
    ensures
        quantity_of::<Emotion>(scripted_reply_of(prompt), "EMOTION"@) == Some(
            scripted_emotion(occurrences(prompt, "user "@), prompt_age(prompt)),
        ),
        quantity_of::<Attitude>(scripted_reply_of(prompt), "ATTITUDE"@) == Some(Attitude::Positive),
        quantity_of::<Behavior>(scripted_reply_of(prompt), "BEHAVIOR"@) == Some(Behavior::Post),
        content_of(scripted_reply_of(prompt)) == Some("I agree, this is important to share."@),
{
    let c = "I agree, this is important to share."@;
    reveal_strlit("I agree, this is important to share.");
    reveal_strlit("empty");
    assert(c.len() != "empty"@.len());
    assert(lower(c).len() != lower("empty"@).len());
    lemma_strict_reply_read(
        scripted_emotion(occurrences(prompt, "user "@), prompt_age(prompt)),
        Attitude::Positive,
        Behavior::Post,
        c,
    );
}

/// The reply of the scripted offline model to `prompt`.
pub fn scripted_reply(prompt: &str) -> (r: String)
    ensures
        r@ == scripted_reply_of(prompt@),
{
    let p = chars_of(prompt);
    if occurs_in_exec(&p, &chars_of("Answer with ONLY the numbers")) {
        return String::from_str("1, 2, 3");
    }
    proof {
        reveal_strlit("user ");
    }
    let received = count_occurrences(&p, &chars_of("user "));
    let age = age_of(&p);
    let emotion = if received == 0 {
        Emotion::Calm
    } else if age % 3 == 1 {
        Emotion::Intense
    } else {
        Emotion::Moderate
    };
    let (attitude, behavior, content) = if received >= 1 {
        (Attitude::Positive, Behavior::Post, "I agree, this is important to share.")
    } else {
        (Attitude::Negative, Behavior::Inactive, "")
    };
    let mut r = String::from_str("EMOTION");
    r.append(": ");
    r.append(emotion.label());
    r.append("\n");
    r.append("ATTITUDE");
    r.append(": ");
    r.append(attitude.label());
    r.append("\n");
    r.append("BEHAVIOR");
    r.append(": ");
    r.append(behavior.label());
    r.append("\n");
    r.append("CONTENT");
    r.append(": ");
    r.append(content);
    proof {
        reveal_strlit("\n");
        assert(r@ =~= strict_reply(emotion, attitude, behavior, content@));
    }
    r
}

} // verus!
