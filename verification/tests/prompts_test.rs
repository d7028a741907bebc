use s3_simulation::prompts::{contagion_prompt, initial_attitude_prompt, messages_digest, perception_prompt};
use s3_simulation::simulation::{topic_words, DEFAULT_TOPIC};
use s3_simulation::world::{AgentState, Attitude, Behavior, Emotion, Message, Profile};

fn agent() -> AgentState {
    let profile = Profile { gender: "woman".into(), age: 42, occupation: "nurse".into() };
    let mut a = AgentState::new(profile, Emotion::Moderate, Attitude::Positive);
    a.behavior = Behavior::Repost;
    a
}

fn msg(author: u64, content: &str, is_repost: bool) -> Message {
    Message { author, origin: author, content: content.into(), round: 1, is_repost }
}

#[test]
fn digest_of_no_messages() {
    assert_eq!(messages_digest(&[], 5), "(no messages received)");
}

#[test]
fn digest_keeps_the_last_items_and_flattens_lines() {
    let msgs = vec![
        msg(1, "dropped", false),
        msg(7, "line one\nline two", true),
        msg(12, "hi\r\nthere", false),
    ];
    assert_eq!(
        messages_digest(&msgs, 2),
        "- (user 7 reposted) \"line one line two\"\n- (user 12 posted) \"hi  there\""
    );
    assert_eq!(
        messages_digest(&msgs, 10),
        "- (user 1 posted) \"dropped\"\n- (user 7 reposted) \"line one line two\"\n- (user 12 posted) \"hi  there\""
    );
    assert_eq!(messages_digest(&msgs, 0), "");
}

#[test]
fn topic_underscores_become_spaces() {
    assert_eq!(topic_words(DEFAULT_TOPIC), "nuclear wastewater release");
    assert_eq!(topic_words("a__b"), "a  b");
}

#[test]
fn contagion_prompt_text() {
    let selected = vec![msg(3, "We should worry.", false)];
    let expected = format!(
        "You are a social-media user. Profile: {profile}.\n\
         Topic under discussion: {topic_h}.\n\
         Your current emotion is {emotion}, your current attitude is {attitude}, \
         and your last action was {behavior}.\n\
         Recent messages you received from people you follow:\n{messages}\n\n\
         Based on your profile, your current state and the messages above, decide how you \
         react this round. Update your EMOTION (one of: calm, moderate, intense), your \
         ATTITUDE toward the topic (one of: negative, positive), and your BEHAVIOR \
         (one of: repost, post, inactive). If you choose post or repost, also write a \
         short message (max 30 words, no hashtags, no quotation marks). If inactive, leave \
         CONTENT empty.\n\n\
         Answer in EXACTLY this format and nothing else:\n\
         EMOTION: <calm|moderate|intense>\n\
         ATTITUDE: <negative|positive>\n\
         BEHAVIOR: <repost|post|inactive>\n\
         CONTENT: <your message or empty>",
        profile = "a 42-year-old woman nurse",
        topic_h = "nuclear wastewater release",
        emotion = "moderate",
        attitude = "positive",
        behavior = "repost",
        messages = "- (user 3 posted) \"We should worry.\"",
    );
    assert_eq!(contagion_prompt(&agent(), DEFAULT_TOPIC, &selected), expected);
}

#[test]
fn perception_prompt_text() {
    let candidates = vec![msg(4, "first", false), msg(9, "second\nline", true)];
    let expected = format!(
        "You are a social-media user. Profile: {profile}.\n\
         Topic under discussion: {topic_h}.\n\
         Below are messages currently in your feed, numbered from 1:\n{listing}\n\n\
         Choose the {k} message(s) most worth your attention given your profile and the \
         topic. Answer with ONLY the numbers, most important first, comma-separated, and \
         nothing else.\n\
         Example: 3, 1, 5",
        profile = "a 42-year-old woman nurse",
        topic_h = "nuclear wastewater release",
        listing = "1. (user 4 posted) \"first\"\n2. (user 9 reposted) \"second line\"",
        k = 2,
    );
    assert_eq!(perception_prompt(&agent(), DEFAULT_TOPIC, &candidates, 2), expected);
}

#[test]
fn initial_attitude_prompt_text() {
    let expected = "You are a social-media user. Profile: a 42-year-old woman nurse.\n\
         Topic: nuclear wastewater release.\n\
         Before seeing any posts, what is your initial attitude toward this topic? \
         Answer with a SINGLE word: negative or positive.";
    assert_eq!(initial_attitude_prompt(&agent(), DEFAULT_TOPIC), expected);
}
