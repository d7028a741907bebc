//! Rule-based reading of the agents' replies.
//!
//! The contagion reply is asked for in the strict format
//!
//! ```text
//! EMOTION: <calm|moderate|intense>
//! ATTITUDE: <negative|positive>
//! BEHAVIOR: <repost|post|inactive>
//! CONTENT: <...>
//! ```
//!
//! A quantity is read from its `KEY: value` line; where that line is missing
//! or unreadable, the first known keyword anywhere in the reply is taken; a
//! quantity that still cannot be read is `None` (the caller keeps the current
//! state).

use vstd::prelude::*;

use crate::text::{
    chars_of, decimal, digits_value, eq_ignore_ascii_case, eq_ignore_case, find, find_char, flatten,
    flattened, is_digit, is_ws, lemma_decimal_digits, lemma_find_at, lemma_flattened, lemma_split_join,
    lemma_split_single, lemma_strip_clean, lemma_trim_after_space, lower, seqs, split,
    split_chars, split_once, string_of, strip, strip_chars, sub_chars, trim, trim_chars, Sep,
    Strip,
};
use crate::prompts::joined;
use crate::world::{Attitude, Behavior, Emotion, Keyword};

verus! {

// ------------------------------------------------------------------------- //
// `KEY: value` lines
// ------------------------------------------------------------------------- //

/// The value of a `KEY: value` line whose key is `key` (ASCII case ignored).
pub open spec fn line_field(line: Seq<char>, key: Seq<char>) -> Option<Seq<char>> {
    match split_once(trim(line), ':') {
        Some((l, r)) => if eq_ignore_case(trim(l), key) {
            Some(trim(r))
        } else {
            None
        },
        None => None,
    }
}

/// The value given by the first line that carries `key`.
pub open spec fn first_field(lines: Seq<Seq<char>>, key: Seq<char>) -> Option<Seq<char>>
    decreases lines.len(),
{
    if lines.len() == 0 {
        None
    } else {
        match line_field(lines[0], key) {
            Some(v) => Some(v),
            None => first_field(lines.drop_first(), key),
        }
    }
}

/// The value of `key` in a reply: the first of its lines that carries `key`.
pub open spec fn field_value_of(text: Seq<char>, key: Seq<char>) -> Option<Seq<char>> {
    first_field(split(text, Sep::Newline), key)
}

/// The value of a key is given by the earliest line that carries it.
pub proof fn lemma_first_field_earliest(lines: Seq<Seq<char>>, key: Seq<char>, i: int)
    requires
        0 <= i < lines.len(),
        line_field(lines[i], key) is Some,
        forall|j: int| 0 <= j < i ==> (#[trigger] line_field(lines[j], key)) is None,
    ensures
        first_field(lines, key) == line_field(lines[i], key),
    decreases i,
{
    if i > 0 {
        assert(line_field(lines[0], key) is None);
        let rest = lines.drop_first();
        assert forall|j: int| 0 <= j < i - 1 implies (#[trigger] line_field(rest[j], key)) is None by {
            assert(rest[j] == lines[j + 1]);
            assert(line_field(lines[j + 1], key) is None);
        }
        assert(rest[i - 1] == lines[i]);
        lemma_first_field_earliest(rest, key, i - 1);
    }
}

/// No line that carries the key gives no value.
pub proof fn lemma_first_field_none(lines: Seq<Seq<char>>, key: Seq<char>)
    requires
        forall|j: int| 0 <= j < lines.len() ==> (#[trigger] line_field(lines[j], key)) is None,
    ensures
        first_field(lines, key) is None,
    decreases lines.len(),
{
    if lines.len() > 0 {
        assert(line_field(lines[0], key) is None);
        let rest = lines.drop_first();
        assert forall|j: int| 0 <= j < rest.len() implies (#[trigger] line_field(rest[j], key)) is None by {
            assert(rest[j] == lines[j + 1]);
            assert(line_field(lines[j + 1], key) is None);
        }
        lemma_first_field_none(rest, key);
    }
}

fn line_field_exec(line: &Vec<char>, key: &Vec<char>) -> (r: Option<Vec<char>>)
    ensures
        match r {
            Some(v) => line_field(line@, key@) == Some(v@),
            None => line_field(line@, key@) is None,
        },
{
    let t = trim_chars(line);
    match find_char(&t, ':') {
        Some(p) => {
            let lhs = trim_chars(&sub_chars(&t, 0, p));
            if eq_ignore_ascii_case(&lhs, key) {
                Some(trim_chars(&sub_chars(&t, p + 1, t.len())))
            } else {
                None
            }
        },
        None => None,
    }
}

/// The value of the first `KEY: value` line of `text` whose key is `key`.
fn field_value(text: &Vec<char>, key: &str) -> (r: Option<Vec<char>>)
    ensures
        match r {
            Some(v) => field_value_of(text@, key@) == Some(v@),
            None => field_value_of(text@, key@) is None,
        },
{
    let kc = chars_of(key);
    let lines = split_chars(text, Sep::Newline);
    let ghost all = seqs(lines@);
    assert(all.subrange(0, all.len() as int) =~= all);
    for i in 0..lines.len()
        invariant
            all == seqs(lines@),
            all == split(text@, Sep::Newline),
            kc@ == key@,
            all.len() == lines.len(),
            first_field(all, key@) == first_field(all.subrange(i as int, all.len() as int), key@),
    {
        let ghost rest = all.subrange(i as int, all.len() as int);
        assert(rest[0] == lines[i as int]@);
        match line_field_exec(&lines[i], &kc) {
            Some(v) => {
                assert(rest.len() > 0);
                assert(first_field(rest, key@) == Some(v@));
                assert(all == split(text@, Sep::Newline));
                return Some(v);
            },
            None => {
                assert(rest.drop_first() =~= all.subrange(i + 1, all.len() as int));
            },
        }
    }
    None
}

// ------------------------------------------------------------------------- //
// Keywords anywhere in the reply
// ------------------------------------------------------------------------- //

/// The first word of `words` that denotes a value of `T`.
pub open spec fn first_keyword<T: Keyword>(words: Seq<Seq<char>>) -> Option<T>
    decreases words.len(),
{
    if words.len() == 0 {
        None
    } else {
        match T::word_meaning(words[0]) {
            Some(v) => Some(v),
            None => first_keyword::<T>(words.drop_first()),
        }
    }
}

/// The first known keyword among the ASCII-alphanumeric runs of `text`.
pub open spec fn scanned<T: Keyword>(text: Seq<char>) -> Option<T> {
    first_keyword::<T>(split(text, Sep::NotAlnum))
}

/// The keyword found in a list of words is the meaning of its earliest word
/// that has one; none is found when no word has a meaning.
pub proof fn lemma_first_keyword_earliest<T: Keyword>(words: Seq<Seq<char>>, i: int)
    requires
        0 <= i < words.len(),
        T::word_meaning(words[i]) is Some,
        forall|j: int| 0 <= j < i ==> (#[trigger] T::word_meaning(words[j])) is None,
    ensures
        first_keyword::<T>(words) == T::word_meaning(words[i]),
    decreases i,
{
    if i > 0 {
        assert(T::word_meaning(words[0]) is None);
        let rest = words.drop_first();
        assert forall|j: int| 0 <= j < i - 1 implies (#[trigger] T::word_meaning(rest[j])) is None by {
            assert(rest[j] == words[j + 1]);
            assert(T::word_meaning(words[j + 1]) is None);
        }
        assert(rest[i - 1] == words[i]);
        lemma_first_keyword_earliest::<T>(rest, i - 1);
    }
}

/// A list of words none of which has a meaning yields no keyword.
pub proof fn lemma_first_keyword_none<T: Keyword>(words: Seq<Seq<char>>)
    requires
        forall|j: int| 0 <= j < words.len() ==> (#[trigger] T::word_meaning(words[j])) is None,
    ensures
        first_keyword::<T>(words) is None,
    decreases words.len(),
{
    if words.len() > 0 {
        assert(T::word_meaning(words[0]) is None);
        let rest = words.drop_first();
        assert forall|j: int| 0 <= j < rest.len() implies (#[trigger] T::word_meaning(rest[j])) is None by {
            assert(rest[j] == words[j + 1]);
            assert(T::word_meaning(words[j + 1]) is None);
        }
        lemma_first_keyword_none::<T>(rest);
    }
}

/// When the `KEY:` line of a reply does not read, a quantity is the meaning
/// of the earliest word of the reply that has one: if word `i` of the
/// reply's ASCII-alphanumeric runs means `x` and no earlier word means
/// anything, the quantity is `x`.
pub proof fn lemma_quantity_earliest_word<T: Keyword>(text: Seq<char>, key: Seq<char>, i: int)
    requires
        0 <= i < split(text, Sep::NotAlnum).len(),
        T::word_meaning(split(text, Sep::NotAlnum)[i]) is Some,
        forall|j: int| 0 <= j < i ==> (#[trigger] T::word_meaning(split(text, Sep::NotAlnum)[j])) is None,
        match field_value_of(text, key) {
            Some(v) => T::word_meaning(v) is None,
            None => true,
        },
    ensures
        scanned::<T>(text) == T::word_meaning(split(text, Sep::NotAlnum)[i]),
        quantity_of::<T>(text, key) == T::word_meaning(split(text, Sep::NotAlnum)[i]),
{
    lemma_first_keyword_earliest::<T>(split(text, Sep::NotAlnum), i);
}

/// When the `KEY:` line of a reply does not read and no word of the reply
/// means anything, the quantity is not read.
pub proof fn lemma_quantity_no_word<T: Keyword>(text: Seq<char>, key: Seq<char>)
    requires
        forall|j: int|
            0 <= j < split(text, Sep::NotAlnum).len() ==> (#[trigger] T::word_meaning(
                split(text, Sep::NotAlnum)[j],
            )) is None,
        match field_value_of(text, key) {
            Some(v) => T::word_meaning(v) is None,
            None => true,
        },
    ensures
        quantity_of::<T>(text, key) is None,
{
    lemma_first_keyword_none::<T>(split(text, Sep::NotAlnum));
}

/// Looks for the first known keyword of `T` among the words of `text` (the
/// fallback when the format breaks).
fn scan_keyword<T: Keyword>(text: &Vec<char>) -> (r: Option<T>)
    ensures
        r == scanned::<T>(text@),
{
    let words = split_chars(text, Sep::NotAlnum);
    let ghost all = seqs(words@);
    assert(all.subrange(0, all.len() as int) =~= all);
    for i in 0..words.len()
        invariant
            all == seqs(words@),
            all == split(text@, Sep::NotAlnum),
            all.len() == words.len(),
            first_keyword::<T>(all) == first_keyword::<T>(
                all.subrange(i as int, all.len() as int),
            ),
    {
        let ghost rest = all.subrange(i as int, all.len() as int);
        assert(rest[0] == words[i as int]@);
        match T::from_word(&words[i]) {
            Some(v) => {
                assert(rest.len() > 0);
                assert(first_keyword::<T>(rest) == Some(v));
                return Some(v);
            },
            None => {
                assert(rest.drop_first() =~= all.subrange(i + 1, all.len() as int));
            },
        }
    }
    None
}

/// A quantity of a reply: the value on its `KEY:` line if that reads, else
/// the first keyword found anywhere.
pub open spec fn quantity_of<T: Keyword>(text: Seq<char>, key: Seq<char>) -> Option<T> {
    match field_value_of(text, key) {
        Some(v) => match T::word_meaning(v) {
            Some(x) => Some(x),
            None => scanned::<T>(text),
        },
        None => scanned::<T>(text),
    }
}

fn read_quantity<T: Keyword>(text: &Vec<char>, key: &str) -> (r: Option<T>)
    ensures
        r == quantity_of::<T>(text@, key@),
{
    match field_value(text, key) {
        Some(v) => match T::from_word(&v) {
            Some(x) => Some(x),
            None => scan_keyword::<T>(text),
        },
        None => scan_keyword::<T>(text),
    }
}

// ------------------------------------------------------------------------- //
// Content
// ------------------------------------------------------------------------- //

/// The content value cleaned: trimmed, surrounding quotes removed, trimmed again.
pub open spec fn cleaned(v: Seq<char>) -> Seq<char> {
    trim(strip(trim(v), Strip::Quote))
}

/// The content of a reply: the cleaned `CONTENT:` value with line breaks
/// turned into spaces, or `None` when it is missing, empty or `empty`.
pub open spec fn content_of(text: Seq<char>) -> Option<Seq<char>> {
    match field_value_of(text, "CONTENT"@) {
        Some(v) => {
            let c = cleaned(v);
            if c.len() > 0 && !eq_ignore_case(c, "empty"@) {
                Some(flattened(c))
            } else {
                None
            }
        },
        None => None,
    }
}

fn read_content(text: &Vec<char>) -> (r: Option<Vec<char>>)
    ensures
        match r {
            Some(v) => content_of(text@) == Some(v@),
            None => content_of(text@) is None,
        },
{
    match field_value(text, "CONTENT") {
        Some(v) => {
            let c = trim_chars(&strip_chars(&trim_chars(&v), Strip::Quote));
            if c.len() > 0 && !eq_ignore_ascii_case(&c, &chars_of("empty")) {
                Some(flatten(&c))
            } else {
                None
            }
        },
        None => None,
    }
}

// ------------------------------------------------------------------------- //
// Contagion replies
// ------------------------------------------------------------------------- //

/// A decoded contagion reply; a quantity that could not be read is `None`
/// (the current state is kept).
#[derive(Debug, Clone, Default, PartialEq, Eq)]
pub struct ContagionDecision {
    pub emotion: Option<Emotion>,
    pub attitude: Option<Attitude>,
    pub behavior: Option<Behavior>,
    /// The text to post or repost (`None` when empty).
    pub content: Option<String>,
}

/// Reads a contagion reply.
pub fn parse_contagion(text: &str) -> (d: ContagionDecision)
    ensures
        d.emotion == quantity_of::<Emotion>(text@, "EMOTION"@),
        d.attitude == quantity_of::<Attitude>(text@, "ATTITUDE"@),
        d.behavior == quantity_of::<Behavior>(text@, "BEHAVIOR"@),
        match d.content {
            Some(s) => content_of(text@) == Some(s@),
            None => content_of(text@) is None,
        },
        d.content matches Some(s) ==> {
            &&& s@.len() > 0
            &&& forall|i: int| 0 <= i < s@.len() ==> s@[i] != '\n' && s@[i] != '\r'
        },
{
    let t = chars_of(text);
    let emotion = read_quantity::<Emotion>(&t, "EMOTION");
    let attitude = read_quantity::<Attitude>(&t, "ATTITUDE");
    let behavior = read_quantity::<Behavior>(&t, "BEHAVIOR");
    let content = match read_content(&t) {
        Some(c) => {
            proof {
                lemma_flattened(cleaned(field_value_of(text@, "CONTENT"@)->0));
            }
            Some(string_of(&c))
        },
        None => None,
    };
    ContagionDecision { emotion, attitude, behavior, content }
}

// ------------------------------------------------------------------------- //
// The strict format
// ------------------------------------------------------------------------- //

/// One `KEY: value` line of the strict format.
pub open spec fn reply_line(key: Seq<char>, value: Seq<char>) -> Seq<char> {
    key + ": "@ + value
}

/// A reply in exactly the format that the contagion prompt asks for.
pub open spec fn strict_reply(e: Emotion, a: Attitude, b: Behavior, content: Seq<char>) -> Seq<char> {
    reply_line("EMOTION"@, e.spec_label()).push('\n') + reply_line("ATTITUDE"@, a.spec_label()).push(
        '\n',
    ) + reply_line("BEHAVIOR"@, b.spec_label()).push('\n') + reply_line("CONTENT"@, content)
}

/// A content that the strict format carries as it is: one line, not empty,
/// with neither whitespace nor a double quote at either end, and not the
/// word `empty`.
pub open spec fn plain_content(c: Seq<char>) -> bool {
    &&& c.len() > 0
    &&& !is_ws(c[0]) && !is_ws(c.last())
    &&& c[0] != '"' && c.last() != '"'
    &&& forall|i: int| 0 <= i < c.len() ==> #[trigger] c[i] != '\n' && c[i] != '\r'
    &&& !eq_ignore_case(c, "empty"@)
}

/// A text without whitespace at its ends.
pub open spec fn tight(s: Seq<char>) -> bool {
    s.len() > 0 && !is_ws(s[0]) && !is_ws(s.last())
}

/// What a `KEY: value` line gives for a key.
proof fn lemma_reply_line_field(key: Seq<char>, value: Seq<char>, asked: Seq<char>)
    requires
        tight(key),
        tight(value),
        forall|j: int| 0 <= j < key.len() ==> #[trigger] key[j] != ':',
    ensures
        line_field(reply_line(key, value), asked) == if eq_ignore_case(key, asked) {
            Some(value)
        } else {
            None
        },
{
    reveal_strlit(": ");
    let line = reply_line(key, value);
    let kl = key.len() as int;
    assert(line[0] == key[0]);
    assert(line.last() == value.last());
    lemma_strip_clean(line, Strip::Whitespace);
    assert(line[kl] == ':');
    assert forall|j: int| 0 <= j < kl implies line[j] != ':' by {
        assert(line[j] == key[j]);
    }
    lemma_find_at(line, ':', kl);
    assert(line.subrange(0, kl) =~= key);
    assert(line.subrange(kl + 1, line.len() as int) =~= seq![' '] + value);
    lemma_strip_clean(key, Strip::Whitespace);
    lemma_trim_after_space(value);
}

/// Lines without a line break, joined by line breaks, split back into themselves.
proof fn lemma_split_four_lines(l0: Seq<char>, l1: Seq<char>, l2: Seq<char>, l3: Seq<char>)
    requires
        forall|i: int| 0 <= i < l0.len() ==> #[trigger] l0[i] != '\n',
        forall|i: int| 0 <= i < l1.len() ==> #[trigger] l1[i] != '\n',
        forall|i: int| 0 <= i < l2.len() ==> #[trigger] l2[i] != '\n',
        forall|i: int| 0 <= i < l3.len() ==> #[trigger] l3[i] != '\n',
    ensures
        split(l0.push('\n') + l1.push('\n') + l2.push('\n') + l3, Sep::Newline) == seq![l0, l1, l2, l3],
{
    let t = l0.push('\n') + l1.push('\n') + l2.push('\n') + l3;
    assert(t =~= l0.push('\n') + (l1.push('\n') + (l2.push('\n') + l3)));
    lemma_split_join(l0, '\n', l1.push('\n') + (l2.push('\n') + l3), Sep::Newline);
    lemma_split_join(l1, '\n', l2.push('\n') + l3, Sep::Newline);
    lemma_split_join(l2, '\n', l3, Sep::Newline);
    lemma_split_single(l0, Sep::Newline);
    lemma_split_single(l1, Sep::Newline);
    lemma_split_single(l2, Sep::Newline);
    lemma_split_single(l3, Sep::Newline);
    assert(seq![l0] + (seq![l1] + (seq![l2] + seq![l3])) =~= seq![l0, l1, l2, l3]);
}

/// The first of four lines that carries a key.
proof fn lemma_first_field_four(l0: Seq<char>, l1: Seq<char>, l2: Seq<char>, l3: Seq<char>, key: Seq<char>)
    ensures
        first_field(seq![l0, l1, l2, l3], key) == if line_field(l0, key) is Some {
            line_field(l0, key)
        } else if line_field(l1, key) is Some {
            line_field(l1, key)
        } else if line_field(l2, key) is Some {
            line_field(l2, key)
        } else {
            line_field(l3, key)
        },
{
    let lines = seq![l0, l1, l2, l3];
    assert(lines.drop_first() =~= seq![l1, l2, l3]);
    assert(seq![l1, l2, l3].drop_first() =~= seq![l2, l3]);
    assert(seq![l2, l3].drop_first() =~= seq![l3]);
    assert(seq![l3].drop_first() =~= Seq::<Seq<char>>::empty());
    reveal_with_fuel(first_field, 5);
}

/// The keys of the strict format differ from one another, case ignored.
proof fn lemma_keys_differ()
    ensures
        !eq_ignore_case("EMOTION"@, "ATTITUDE"@),
        !eq_ignore_case("EMOTION"@, "BEHAVIOR"@),
        !eq_ignore_case("EMOTION"@, "CONTENT"@),
        !eq_ignore_case("ATTITUDE"@, "BEHAVIOR"@),
        !eq_ignore_case("ATTITUDE"@, "CONTENT"@),
        !eq_ignore_case("BEHAVIOR"@, "CONTENT"@),
{
    reveal_strlit("EMOTION");
    reveal_strlit("ATTITUDE");
    reveal_strlit("BEHAVIOR");
    reveal_strlit("CONTENT");
    assert(lower("ATTITUDE"@)[0] != lower("BEHAVIOR"@)[0]);
    assert(lower("EMOTION"@)[0] != lower("CONTENT"@)[0]);
}

/// The values that the lines of a strict reply carry.
proof fn lemma_strict_reply_fields(e: Emotion, a: Attitude, b: Behavior, c: Seq<char>)
    requires
        plain_content(c),
    ensures
        field_value_of(strict_reply(e, a, b, c), "EMOTION"@) == Some(e.spec_label()),
        field_value_of(strict_reply(e, a, b, c), "ATTITUDE"@) == Some(a.spec_label()),
        field_value_of(strict_reply(e, a, b, c), "BEHAVIOR"@) == Some(b.spec_label()),
        field_value_of(strict_reply(e, a, b, c), "CONTENT"@) == Some(c),
{
    reveal_strlit("EMOTION");
    reveal_strlit("ATTITUDE");
    reveal_strlit("BEHAVIOR");
    reveal_strlit("CONTENT");
    reveal_strlit(": ");
    reveal_strlit("calm");
    reveal_strlit("moderate");
    reveal_strlit("intense");
    reveal_strlit("negative");
    reveal_strlit("positive");
    reveal_strlit("repost");
    reveal_strlit("post");
    reveal_strlit("inactive");
    let (ke, ka, kb, kc) = ("EMOTION"@, "ATTITUDE"@, "BEHAVIOR"@, "CONTENT"@);
    let (ve, va, vb) = (e.spec_label(), a.spec_label(), b.spec_label());
    let l0 = reply_line(ke, ve);
    let l1 = reply_line(ka, va);
    let l2 = reply_line(kb, vb);
    let l3 = reply_line(kc, c);
    assert forall|i: int| 0 <= i < l3.len() implies #[trigger] l3[i] != '\n' by {
        if i >= kc.len() + 2 {
            assert(l3[i] == c[i - kc.len() - 2]);
        }
    }
    lemma_split_four_lines(l0, l1, l2, l3);
    lemma_keys_differ();
    lemma_reply_line_field(ke, ve, ke);
    lemma_reply_line_field(ka, va, ke);
    lemma_reply_line_field(kb, vb, ke);
    lemma_reply_line_field(kc, c, ke);
    lemma_reply_line_field(ke, ve, ka);
    lemma_reply_line_field(ka, va, ka);
    lemma_reply_line_field(kb, vb, ka);
    lemma_reply_line_field(kc, c, ka);
    lemma_reply_line_field(ke, ve, kb);
    lemma_reply_line_field(ka, va, kb);
    lemma_reply_line_field(kb, vb, kb);
    lemma_reply_line_field(kc, c, kb);
    lemma_reply_line_field(ke, ve, kc);
    lemma_reply_line_field(ka, va, kc);
    lemma_reply_line_field(kb, vb, kc);
    lemma_reply_line_field(kc, c, kc);
    lemma_first_field_four(l0, l1, l2, l3, ke);
    lemma_first_field_four(l0, l1, l2, l3, ka);
    lemma_first_field_four(l0, l1, l2, l3, kb);
    lemma_first_field_four(l0, l1, l2, l3, kc);
}

/// A reply in the strict format is read back as written: the emotion,
/// attitude and behavior on its lines, and its content unchanged, provided
/// the content is a single tight line that is neither quoted nor `empty`.
pub proof fn lemma_strict_reply_read(e: Emotion, a: Attitude, b: Behavior, c: Seq<char>)
    requires
        plain_content(c),
    ensures
        quantity_of::<Emotion>(strict_reply(e, a, b, c), "EMOTION"@) == Some(e),
        quantity_of::<Attitude>(strict_reply(e, a, b, c), "ATTITUDE"@) == Some(a),
        quantity_of::<Behavior>(strict_reply(e, a, b, c), "BEHAVIOR"@) == Some(b),
        content_of(strict_reply(e, a, b, c)) == Some(c),
{
    lemma_strict_reply_fields(e, a, b, c);
    crate::world::lemma_emotion_label_roundtrip(e);
    crate::world::lemma_attitude_label_roundtrip(a);
    crate::world::lemma_behavior_label_roundtrip(b);
    lemma_strip_clean(c, Strip::Whitespace);
    lemma_strip_clean(c, Strip::Quote);
    assert(flattened(c) =~= c);
}

// ------------------------------------------------------------------------- //
// Perception rankings
// ------------------------------------------------------------------------- //

/// The ranking read from the digit runs `toks`: each number `1..=n` in turn
/// gives the index `number - 1`, numbers out of range, too large for `usize`
/// or already taken are skipped, and at most `k` indices are kept.
pub open spec fn rank_tokens(toks: Seq<Seq<char>>, n: usize, k: usize) -> Seq<usize>
    decreases toks.len(),
{
    if toks.len() == 0 {
        Seq::empty()
    } else {
        let out = rank_tokens(toks.drop_last(), n, k);
        let t = toks.last();
        let v = digits_value(t);
        if out.len() < k && t.len() > 0 && v <= usize::MAX && 1 <= v <= n && !out.contains(
            (v - 1) as usize,
        ) {
            out.push((v - 1) as usize)
        } else {
            out
        }
    }
}

/// The ranking a perception reply gives for `n` candidates, at most `k` long.
pub open spec fn ranking_of(text: Seq<char>, n: usize, k: usize) -> Seq<usize> {
    rank_tokens(split(text, Sep::NotDigit), n, k)
}

/// A ranking holds at most `k` indices, each below `n`, none twice.
pub proof fn lemma_rank_tokens(toks: Seq<Seq<char>>, n: usize, k: usize)
    ensures
        rank_tokens(toks, n, k).len() <= k,
        forall|i: int|
            0 <= i < rank_tokens(toks, n, k).len() ==> #[trigger] rank_tokens(toks, n, k)[i] < n,
        rank_tokens(toks, n, k).no_duplicates(),
    decreases toks.len(),
{
    if toks.len() > 0 {
        lemma_rank_tokens(toks.drop_last(), n, k);
        let out = rank_tokens(toks.drop_last(), n, k);
        let t = toks.last();
        let v = digits_value(t);
        if out.len() < k && t.len() > 0 && v <= usize::MAX && 1 <= v <= n && !out.contains(
            (v - 1) as usize,
        ) {
            let x = (v - 1) as usize;
            let q = out.push(x);
            assert forall|i: int, j: int|
                0 <= i < q.len() && 0 <= j < q.len() && i != j implies q[i] != q[j] by {
                if i == out.len() {
                    assert(out[j] == q[j]);
                } else if j == out.len() {
                    assert(out[i] == q[i]);
                }
            }
            assert forall|i: int| 0 <= i < q.len() implies #[trigger] q[i] < n by {
                if i < out.len() {
                    assert(q[i] == out[i]);
                }
            }
        }
    }
}

/// A reply that lists numbers, separated by `, `.
pub open spec fn number_reply(xs: Seq<nat>) -> Seq<char> {
    joined(xs.map_values(|x: nat| decimal(x)), ", "@)
}

/// The indices (0-based) of the first `k` numbers (1-based) of `xs`.
pub open spec fn first_indices(xs: Seq<nat>, k: usize) -> Seq<usize> {
    xs.take(if xs.len() < k { xs.len() as int } else { k as int }).map_values(|x: nat| (x - 1) as usize)
}

/// Splitting a reply at `, ` before a number.
proof fn lemma_split_number_reply(a: Seq<char>, x: nat)
    ensures
        split(a + ", "@ + decimal(x), Sep::NotDigit) == split(a, Sep::NotDigit) + seq![
            Seq::<char>::empty(),
            decimal(x),
        ],
{
    reveal_strlit(", ");
    lemma_decimal_digits(x);
    let d = decimal(x);
    assert(a + ", "@ + d =~= a.push(',').push(' ') + d);
    assert(a.push(',') + Seq::<char>::empty() =~= a.push(','));
    lemma_split_join(a.push(','), ' ', d, Sep::NotDigit);
    lemma_split_join(a, ',', Seq::<char>::empty(), Sep::NotDigit);
    lemma_split_single(d, Sep::NotDigit);
    assert(split(Seq::<char>::empty(), Sep::NotDigit) == seq![Seq::<char>::empty()]);
    assert(split(a, Sep::NotDigit) + seq![Seq::<char>::empty()] + seq![d] =~= split(a, Sep::NotDigit)
        + seq![Seq::<char>::empty(), d]);
}

/// A reply that lists distinct candidate numbers (1-based), separated by
/// `, ` as the perception prompt asks, is read as the indices of those
/// candidates in the same order, the first `k` of them.
pub proof fn lemma_number_reply_ranking(xs: Seq<nat>, n: usize, k: usize)
    requires
        xs.no_duplicates(),
        forall|i: int| 0 <= i < xs.len() ==> 1 <= #[trigger] xs[i] <= n,
    ensures
        ranking_of(number_reply(xs), n, k) == first_indices(xs, k),
    decreases xs.len(),
{
    let lines = xs.map_values(|x: nat| decimal(x));
    if xs.len() == 0 {
        assert(number_reply(xs) == Seq::<char>::empty());
        let toks = split(Seq::<char>::empty(), Sep::NotDigit);
        assert(toks == seq![Seq::<char>::empty()]);
        assert(toks.drop_last() =~= Seq::<Seq<char>>::empty());
        assert(rank_tokens(toks.drop_last(), n, k) == Seq::<usize>::empty());
        assert(toks.last().len() == 0);
        assert(rank_tokens(toks, n, k) == Seq::<usize>::empty());
        assert(first_indices(xs, k) =~= Seq::<usize>::empty());
    } else {
        let ys = xs.drop_last();
        let x = xs.last();
        assert(ys.no_duplicates()) by {
            assert forall|i: int, j: int| 0 <= i < ys.len() && 0 <= j < ys.len() && i != j implies ys[i] != ys[j] by {
                assert(ys[i] == xs[i] && ys[j] == xs[j]);
            }
        }
        assert forall|i: int| 0 <= i < ys.len() implies 1 <= #[trigger] ys[i] <= n by {
            assert(ys[i] == xs[i]);
        }
        lemma_number_reply_ranking(ys, n, k);
        lemma_decimal_digits(x);
        let d = decimal(x);
        let out = ranking_of(number_reply(ys), n, k);
        let toks = split(number_reply(xs), Sep::NotDigit);
        if ys.len() == 0 {
            assert(lines =~= seq![d]);
            assert(number_reply(xs) == d);
            lemma_split_single(d, Sep::NotDigit);
            assert(toks.drop_last() =~= Seq::<Seq<char>>::empty());
            assert(out =~= Seq::<usize>::empty());
        } else {
            assert(lines.drop_last() =~= ys.map_values(|x: nat| decimal(x)));
            assert(lines.last() == d);
            assert(number_reply(xs) == number_reply(ys) + ", "@ + d);
            lemma_split_number_reply(number_reply(ys), x);
            let pa = split(number_reply(ys), Sep::NotDigit);
            assert(toks.drop_last() =~= pa.push(Seq::<char>::empty()));
            assert(pa.push(Seq::<char>::empty()).drop_last() =~= pa);
            assert(rank_tokens(pa.push(Seq::<char>::empty()), n, k) == out);
        }
        assert(toks.last() == d);
        assert(toks.len() > 0);
        assert(digits_value(d) == x);
        assert(rank_tokens(toks.drop_last(), n, k) == out);
        let m = if ys.len() < k { ys.len() as int } else { k as int };
        assert(out == ys.take(m).map_values(|x: nat| (x - 1) as usize));
        if ys.len() < k {
            assert(!out.contains((x - 1) as usize)) by {
                if out.contains((x - 1) as usize) {
                    let i = choose|i: int| 0 <= i < out.len() && out[i] == (x - 1) as usize;
                    assert(ys[i] == xs[i]);
                    assert(xs[i] != xs[xs.len() - 1]);
                }
            }
            assert(xs.take(xs.len() as int) =~= ys.take(m).push(x));
            assert(out.len() < k);
            assert(rank_tokens(toks, n, k) == out.push((x - 1) as usize));
            assert(first_indices(xs, k) =~= out.push((x - 1) as usize));
        } else {
            assert(xs.take(k as int) =~= ys.take(k as int));
            assert(out.len() == k);
            assert(rank_tokens(toks, n, k) == out);
            assert(first_indices(xs, k) =~= out);
        }
    }
}

/// A prefix of a digit string has no larger value.
proof fn lemma_digits_prefix(s: Seq<char>, i: int)
    requires
        0 <= i <= s.len(),
        forall|j: int| 0 <= j < s.len() ==> #[trigger] is_digit(s[j]),
    ensures
        digits_value(s.take(i)) <= digits_value(s),
    decreases s.len(),
{
    if i < s.len() {
        assert(is_digit(s[s.len() - 1]));
        lemma_digits_prefix(s.drop_last(), i);
        assert(s.drop_last().take(i) =~= s.take(i));
    } else {
        assert(s.take(i) =~= s);
    }
}

/// `str::parse::<usize>` on a non-empty digit string: its value, or `None`
/// when it does not fit in `usize`.
pub(crate) fn parse_decimal(t: &Vec<char>) -> (r: Option<usize>)
    requires
        forall|j: int| 0 <= j < t@.len() ==> #[trigger] is_digit(t@[j]),
    ensures
        match r {
            Some(v) => v == digits_value(t@),
            None => digits_value(t@) > usize::MAX,
        },
{
    let mut acc: usize = 0;
    for i in 0..t.len()
        invariant
            forall|j: int| 0 <= j < t@.len() ==> #[trigger] is_digit(t@[j]),
            acc == digits_value(t@.take(i as int)),
    {
        let ghost next = t@.take(i + 1);
        proof {
            assert(next.drop_last() =~= t@.take(i as int));
            assert(is_digit(t@[i as int]));
            lemma_digits_prefix(t@, i + 1);
        }
        let d = ((t[i] as u32) - 48) as usize;
        match acc.checked_mul(10) {
            Some(m) => match m.checked_add(d) {
                Some(a) => {
                    acc = a;
                },
                None => {
                    return None;
                },
            },
            None => {
                return None;
            },
        }
    }
    assert(t@.take(t.len() as int) =~= t@);
    Some(acc)
}

/// Reads a perception reply: the 1-based numbers in it become 0-based indices
/// of the `n_candidates` candidates; duplicates and numbers out of range are
/// dropped, and at most `k` indices are kept, in the order given. A reply
/// with no usable number gives an empty list.
pub fn parse_perception_ranking(text: &str, n_candidates: usize, k: usize) -> (r: Vec<usize>)
    ensures
        r@ == ranking_of(text@, n_candidates, k),
        r@.len() <= k,
        forall|i: int| 0 <= i < r@.len() ==> #[trigger] r@[i] < n_candidates,
        r@.no_duplicates(),
{
    let chars = chars_of(text);
    let toks = split_chars(&chars, Sep::NotDigit);
    let ghost all = seqs(toks@);
    proof {
        crate::text::lemma_split_pieces(chars@, Sep::NotDigit);
    }
    let mut out: Vec<usize> = Vec::new();
    for i in 0..toks.len()
        invariant
            all == seqs(toks@),
            all == split(chars@, Sep::NotDigit),
            all.len() == toks.len(),
            out@ == rank_tokens(all.take(i as int), n_candidates, k),
            forall|a: int, b: int|
                0 <= a < all.len() && 0 <= b < all[a].len() ==> !crate::text::separates(
                    Sep::NotDigit,
                    #[trigger] all[a][b],
                ),
    {
        let ghost pre = all.take(i as int);
        let ghost post = all.take(i + 1);
        proof {
            assert(post.drop_last() =~= pre);
            assert(post.last() == toks[i as int]@);
            lemma_rank_tokens(pre, n_candidates, k);
        }
        let tok = &toks[i];
        if out.len() < k && tok.len() > 0 {
            proof {
                assert forall|j: int| 0 <= j < tok@.len() implies #[trigger] is_digit(tok@[j]) by {
                    assert(all[i as int][j] == tok@[j]);
                }
            }
            match parse_decimal(tok) {
                Some(v) => {
                    if v >= 1 && v <= n_candidates {
                        let idx = v - 1;
                        let mut seen = false;
                        for j in 0..out.len()
                            invariant
                                seen == out@.take(j as int).contains(idx),
                        {
                            proof {
                                assert(out@.take(j + 1) =~= out@.take(j as int).push(out@[j as int]));
                                if out@.take(j + 1).contains(idx) && out@[j as int] != idx {
                                    let p = choose|p: int|
                                        0 <= p < j + 1 && #[trigger] out@.take(j + 1)[p] == idx;
                                    assert(out@.take(j as int)[p] == idx);
                                }
                                if out@.take(j as int).contains(idx) {
                                    let p = choose|p: int|
                                        0 <= p < j && #[trigger] out@.take(j as int)[p] == idx;
                                    assert(out@.take(j + 1)[p] == idx);
                                }
                                if out@[j as int] == idx {
                                    assert(out@.take(j + 1)[j as int] == idx);
                                }
                            }
                            if out[j] == idx {
                                seen = true;
                            }
                        }
                        proof {
                            assert(out@.take(out@.len() as int) =~= out@);
                        }
                        if !seen {
                            out.push(idx);
                        }
                    }
                },
                None => {},
            }
        }
    }
    proof {
        assert(all.take(all.len() as int) =~= all);
        lemma_rank_tokens(all, n_candidates, k);
    }
    out
}

} // verus!
