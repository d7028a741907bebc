//! The prompts sent to the language model. A prompt is built
//! deterministically from the state, so that one state always gives one
//! prompt (the prompt is the key of the reply cache).

use vstd::prelude::*;

use crate::simulation::{topic_text, topic_words};
use crate::text::{chars_of, decimal, decimal_chars, flatten, flattened, push_chars};
use crate::world::{AgentState, Message};

verus! {

/// The opening shared by all prompts.
pub const OPENING: &'static str = "You are a social-media user. Profile: ";

pub const CONTAGION_TOPIC: &'static str = ".\n\
     Topic under discussion: ";

pub const CONTAGION_EMOTION: &'static str = ".\n\
     Your current emotion is ";

pub const CONTAGION_ATTITUDE: &'static str = ", your current attitude is ";

pub const CONTAGION_BEHAVIOR: &'static str = ", \
     and your last action was ";

pub const CONTAGION_MESSAGES: &'static str = ".\n\
     Recent messages you received from people you follow:\n";

/// The instructions and the strict reply format that the reader expects.
pub const CONTAGION_FORMAT: &'static str = "\n\n\
     Based on your profile, your current state and the messages above, decide how you \
     react this round. Update your EMOTION (one of: calm, moderate, intense), your \
     ATTITUDE toward the topic (one of: negative, positive), and your BEHAVIOR \
     (one of: repost, post, inactive). If you choose post or repost, also write a \
     short message (max 30 words, no hashtags, no quotation marks). If inactive, leave \
     CONTENT empty.\n\n\
     Answer in EXACTLY this format and nothing else:\n\
     EMOTION: <calm|moderate|intense>\n\
     ATTITUDE: <negative|positive>\n\
     BEHAVIOR: <repost|post|inactive>\n\
     CONTENT: <your message or empty>";

pub const PERCEPTION_FEED: &'static str = ".\n\
     Below are messages currently in your feed, numbered from 1:\n";

pub const PERCEPTION_CHOOSE: &'static str = "\n\n\
     Choose the ";

pub const PERCEPTION_FORMAT: &'static str = " message(s) most worth your attention given your profile and the \
     topic. Answer with ONLY the numbers, most important first, comma-separated, and \
     nothing else.\n\
     Example: 3, 1, 5";

pub const INITIAL_TOPIC: &'static str = ".\n\
     Topic: ";

pub const INITIAL_QUESTION: &'static str = ".\n\
     Before seeing any posts, what is your initial attitude toward this topic? \
     Answer with a SINGLE word: negative or positive.";

pub const NO_MESSAGES: &'static str = "(no messages received)";

// ------------------------------------------------------------------------- //
// Messages as text
// ------------------------------------------------------------------------- //

/// `posted` or `reposted`.
pub open spec fn kind_text(m: Message) -> Seq<char> {
    if m.is_repost {
        "reposted"@
    } else {
        "posted"@
    }
}

/// `(user {author} {kind}) "{body}"`, line breaks of the body turned into spaces.
pub open spec fn message_text(m: Message) -> Seq<char> {
    "(user "@ + decimal(m.author as nat) + " "@ + kind_text(m) + ") \""@ + flattened(m.content@)
        + "\""@
}

/// Lines joined by a separator.
pub open spec fn joined(lines: Seq<Seq<char>>, sep: Seq<char>) -> Seq<char>
    decreases lines.len(),
{
    if lines.len() == 0 {
        Seq::empty()
    } else if lines.len() == 1 {
        lines[0]
    } else {
        joined(lines.drop_last(), sep) + sep + lines.last()
    }
}

fn push_message_text(s: &mut String, m: &Message)
    ensures
        final(s)@ == old(s)@ + message_text(*m),
{
    s.append("(user ");
    push_chars(s, &decimal_chars(m.author));
    s.append(" ");
    if m.is_repost {
        s.append("reposted");
    } else {
        s.append("posted");
    }
    s.append(") \"");
    push_chars(s, &flatten(&chars_of(m.content.as_str())));
    s.append("\"");
    assert(s@ =~= old(s)@ + message_text(*m));
}

/// The digest lines of the last `max_items` messages.
pub open spec fn digest_lines(msgs: Seq<Message>, max_items: nat) -> Seq<Seq<char>> {
    let start = if msgs.len() > max_items {
        msgs.len() - max_items
    } else {
        0
    };
    Seq::new((msgs.len() - start) as nat, |j: int| "- "@ + message_text(msgs[start + j]))
}

pub open spec fn digest_text(msgs: Seq<Message>, max_items: nat) -> Seq<char> {
    if msgs.len() == 0 {
        NO_MESSAGES@
    } else {
        joined(digest_lines(msgs, max_items), "\n"@)
    }
}

/// The last `max_items` messages, one line each (`- (user …) "…"`), for a
/// prompt; `(no messages received)` when there are none.
pub fn messages_digest(msgs: &[Message], max_items: usize) -> (r: String)
    ensures
        r@ == digest_text(msgs@, max_items as nat),
{
    if msgs.len() == 0 {
        return String::from_str(NO_MESSAGES);
    }
    let start = if msgs.len() > max_items {
        msgs.len() - max_items
    } else {
        0
    };
    let ghost lines = digest_lines(msgs@, max_items as nat);
    let mut s = String::new();
    let count = msgs.len() - start;
    for j in 0..count
        invariant
            count == msgs@.len() - start,
            start + count == msgs@.len(),
            start + count == msgs.len(),
            lines == digest_lines(msgs@, max_items as nat),
            lines.len() == count,
            s@ == joined(lines.take(j as int), "\n"@),
    {
        let ghost before = s@;
        if j > 0 {
            s.append("\n");
        }
        s.append("- ");
        push_message_text(&mut s, &msgs[start + j]);
        proof {
            let t = lines.take(j + 1);
            assert(t.drop_last() =~= lines.take(j as int));
            assert(t.last() == lines[j as int]);
            if j == 0 {
                assert(s@ =~= lines[0]);
            } else {
                assert(s@ =~= before + "\n"@ + lines[j as int]);
            }
        }
    }
    assert(lines.take(count as int) =~= lines);
    s
}

// ------------------------------------------------------------------------- //
// Prompts
// ------------------------------------------------------------------------- //

pub open spec fn spec_contagion_prompt(agent: AgentState, topic: Seq<char>, selected: Seq<Message>) -> Seq<char> {
    OPENING@ + agent.profile.spec_describe() + CONTAGION_TOPIC@ + topic_text(topic)
        + CONTAGION_EMOTION@ + agent.emotion.spec_label() + CONTAGION_ATTITUDE@
        + agent.attitude.spec_label() + CONTAGION_BEHAVIOR@ + agent.behavior.spec_label()
        + CONTAGION_MESSAGES@ + digest_text(selected, 5) + CONTAGION_FORMAT@
}

/// The contagion prompt: given the received messages, the profile and the
/// current state, the model updates emotion, attitude and behavior together
/// (one call per agent) and answers in the strict format that
/// [`crate::parse::parse_contagion`] reads.
pub fn contagion_prompt(agent: &AgentState, topic: &str, selected: &[Message]) -> (r: String)
    ensures
        r@ == spec_contagion_prompt(*agent, topic@, selected@),
{
    let mut s = String::from_str(OPENING);
    let profile = agent.profile.describe();
    s.append(profile.as_str());
    s.append(CONTAGION_TOPIC);
    let t = topic_words(topic);
    s.append(t.as_str());
    s.append(CONTAGION_EMOTION);
    s.append(agent.emotion.label());
    s.append(CONTAGION_ATTITUDE);
    s.append(agent.attitude.label());
    s.append(CONTAGION_BEHAVIOR);
    s.append(agent.behavior.label());
    s.append(CONTAGION_MESSAGES);
    let digest = messages_digest(selected, 5);
    s.append(digest.as_str());
    s.append(CONTAGION_FORMAT);
    s
}

/// The numbered candidate lines: `{i + 1}. (user …) "…"`.
pub open spec fn listing_lines(candidates: Seq<Message>) -> Seq<Seq<char>> {
    Seq::new(
        candidates.len(),
        |i: int| decimal((i + 1) as nat) + ". "@ + message_text(candidates[i]),
    )
}

pub open spec fn spec_perception_prompt(agent: AgentState, topic: Seq<char>, candidates: Seq<Message>, k: nat) -> Seq<char> {
    OPENING@ + agent.profile.spec_describe() + CONTAGION_TOPIC@ + topic_text(topic)
        + PERCEPTION_FEED@ + joined(listing_lines(candidates), "\n"@) + PERCEPTION_CHOOSE@
        + decimal(k) + PERCEPTION_FORMAT@
}

/// The perception prompt: the candidate messages numbered from 1, and the
/// request for the numbers of the `k` most important, comma-separated, which
/// [`crate::parse::parse_perception_ranking`] reads.
pub fn perception_prompt(agent: &AgentState, topic: &str, candidates: &[Message], k: usize) -> (r: String)
    ensures
        r@ == spec_perception_prompt(*agent, topic@, candidates@, k as nat),
{
    let ghost lines = listing_lines(candidates@);
    let mut listing = String::new();
    for i in 0..candidates.len()
        invariant
            lines == listing_lines(candidates@),
            lines.len() == candidates@.len(),
            listing@ == joined(lines.take(i as int), "\n"@),
    {
        let ghost before = listing@;
        if i > 0 {
            listing.append("\n");
        }
        push_chars(&mut listing, &decimal_chars((i + 1) as u64));
        listing.append(". ");
        push_message_text(&mut listing, &candidates[i]);
        proof {
            let t = lines.take(i + 1);
            assert(t.drop_last() =~= lines.take(i as int));
            assert(t.last() == lines[i as int]);
            if i == 0 {
                assert(listing@ =~= lines[0]);
            } else {
                assert(listing@ =~= before + "\n"@ + lines[i as int]);
            }
        }
    }
    assert(lines.take(candidates.len() as int) =~= lines);
    let mut s = String::from_str(OPENING);
    let profile = agent.profile.describe();
    s.append(profile.as_str());
    s.append(CONTAGION_TOPIC);
    let t = topic_words(topic);
    s.append(t.as_str());
    s.append(PERCEPTION_FEED);
    s.append(listing.as_str());
    s.append(PERCEPTION_CHOOSE);
    push_chars(&mut s, &decimal_chars(k as u64));
    s.append(PERCEPTION_FORMAT);
    s
}

pub open spec fn spec_initial_attitude_prompt(agent: AgentState, topic: Seq<char>) -> Seq<char> {
    OPENING@ + agent.profile.spec_describe() + INITIAL_TOPIC@ + topic_text(topic)
        + INITIAL_QUESTION@
}

/// The prompt that asks an agent for its initial attitude (one word:
/// negative or positive).
pub fn initial_attitude_prompt(agent: &AgentState, topic: &str) -> (r: String)
    ensures
        r@ == spec_initial_attitude_prompt(*agent, topic@),
{
    let mut s = String::from_str(OPENING);
    let profile = agent.profile.describe();
    s.append(profile.as_str());
    s.append(INITIAL_TOPIC);
    let t = topic_words(topic);
    s.append(t.as_str());
    s.append(INITIAL_QUESTION);
    s
}

} // verus!
