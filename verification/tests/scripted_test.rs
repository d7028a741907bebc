use s3_simulation::parse::parse_contagion;
use s3_simulation::prompts::{contagion_prompt, perception_prompt};
use s3_simulation::scripted::scripted_reply;
use s3_simulation::simulation::DEFAULT_TOPIC;
use s3_simulation::world::{AgentState, Attitude, Behavior, Emotion, Message, Profile};

fn agent(age: u8) -> AgentState {
    let profile = Profile { gender: "man".into(), age, occupation: "teacher".into() };
    AgentState::new(profile, Emotion::Calm, Attitude::Negative)
}

fn msg(author: u64) -> Message {
    Message { author, origin: author, content: "news".into(), round: 0, is_repost: false }
}

#[test]
fn scripted_perception_reply_is_numbers() {
    let p = perception_prompt(&agent(30), DEFAULT_TOPIC, &[msg(1), msg(2)], 2);
    assert_eq!(scripted_reply(&p), "1, 2, 3");
}

#[test]
fn scripted_reply_without_messages_stays_inactive() {
    let p = contagion_prompt(&agent(42), DEFAULT_TOPIC, &[]);
    let r = scripted_reply(&p);
    assert_eq!(r, "EMOTION: calm\nATTITUDE: negative\nBEHAVIOR: inactive\nCONTENT: ");
    let d = parse_contagion(&r);
    assert_eq!(d.emotion, Some(Emotion::Calm));
    assert_eq!(d.attitude, Some(Attitude::Negative));
    assert_eq!(d.behavior, Some(Behavior::Inactive));
    assert_eq!(d.content, None);
}

#[test]
fn scripted_reply_spreads_emotion_by_age() {
    let expect = |emotion: &str| {
        format!(
            "EMOTION: {emotion}\nATTITUDE: positive\nBEHAVIOR: post\nCONTENT: I agree, this is important to share."
        )
    };
    assert_eq!(scripted_reply(&contagion_prompt(&agent(42), DEFAULT_TOPIC, &[msg(3)])), expect("moderate"));
    assert_eq!(scripted_reply(&contagion_prompt(&agent(43), DEFAULT_TOPIC, &[msg(3)])), expect("intense"));
    assert_eq!(scripted_reply(&contagion_prompt(&agent(44), DEFAULT_TOPIC, &[msg(3), msg(4)])), expect("moderate"));

    let d = parse_contagion(&expect("intense"));
    assert_eq!(d.emotion, Some(Emotion::Intense));
    assert_eq!(d.behavior, Some(Behavior::Post));
    assert_eq!(d.content.as_deref(), Some("I agree, this is important to share."));
}

#[test]
fn scripted_age_falls_back_to_thirty() {
    let moderate = "EMOTION: moderate\nATTITUDE: positive\nBEHAVIOR: post\nCONTENT: I agree, this is important to share.";
    let intense = "EMOTION: intense\nATTITUDE: positive\nBEHAVIOR: post\nCONTENT: I agree, this is important to share.";
    // No "-year-old": the last digits of the whole prompt are taken.
    assert_eq!(scripted_reply("from user 7 today"), intense);
    // No digits at all, or too many for u32: age 30.
    assert_eq!(scripted_reply("from user x"), moderate);
    assert_eq!(scripted_reply("a 99999999999-year-old user here"), moderate);
    // Only the digits before the first "-year-old" count.
    assert_eq!(scripted_reply("a 25-year-old user here, not 26-year-old"), intense);
}
