use s3_simulation::parse::{parse_contagion, parse_perception_ranking};
use s3_simulation::world::{Attitude, Behavior, Emotion};

#[test]
fn parses_perception_ranking() {
    // 1-based numbers become 0-based; duplicates and out-of-range numbers are dropped, at most k.
    assert_eq!(parse_perception_ranking("3, 1, 5", 5, 3), vec![2, 0, 4]);
    assert_eq!(parse_perception_ranking("2 2 9 4", 5, 3), vec![1, 3]);
    assert_eq!(
        parse_perception_ranking("no numbers here", 5, 3),
        Vec::<usize>::new()
    );
    assert_eq!(parse_perception_ranking("1,2,3,4", 5, 2), vec![0, 1]);
}

#[test]
fn parses_strict_format() {
    let resp = "EMOTION: intense\nATTITUDE: positive\nBEHAVIOR: post\nCONTENT: I support this!";
    let d = parse_contagion(resp);
    assert_eq!(d.emotion, Some(Emotion::Intense));
    assert_eq!(d.attitude, Some(Attitude::Positive));
    assert_eq!(d.behavior, Some(Behavior::Post));
    assert_eq!(d.content.as_deref(), Some("I support this!"));
}

#[test]
fn empty_content_is_none() {
    let resp = "EMOTION: calm\nATTITUDE: negative\nBEHAVIOR: inactive\nCONTENT: empty";
    let d = parse_contagion(resp);
    assert_eq!(d.behavior, Some(Behavior::Inactive));
    assert_eq!(d.content, None);
}

#[test]
fn missing_fields_are_none() {
    let d = parse_contagion("I am not sure how I feel.");
    assert_eq!(d.emotion, None);
    assert_eq!(d.attitude, None);
    assert_eq!(d.behavior, None);
    assert_eq!(d.content, None);
}

#[test]
fn scans_keywords_on_format_break() {
    let d = parse_contagion("My mood is calm and I am positive; I will repost this.");
    assert_eq!(d.emotion, Some(Emotion::Calm));
    assert_eq!(d.attitude, Some(Attitude::Positive));
    assert_eq!(d.behavior, Some(Behavior::Repost));
}

#[test]
fn field_line_wins_over_keywords_elsewhere() {
    // The EMOTION line says moderate although "calm" appears first in the text.
    let d = parse_contagion("I was calm before.\nEMOTION: Moderate\nATTITUDE: NEG\nBEHAVIOR: share");
    assert_eq!(d.emotion, Some(Emotion::Moderate));
    assert_eq!(d.attitude, Some(Attitude::Negative));
    assert_eq!(d.behavior, Some(Behavior::Repost));
    assert_eq!(d.content, None);
}

#[test]
fn unreadable_field_value_falls_back_to_scan() {
    // "furious" is no emotion, so the first emotion word of the whole reply is taken.
    let d = parse_contagion("EMOTION: furious\nbut maybe intense");
    assert_eq!(d.emotion, Some(Emotion::Intense));
}

#[test]
fn content_is_cleaned() {
    let d = parse_contagion("CONTENT:   \"  Quoted text \"  ");
    assert_eq!(d.content.as_deref(), Some("Quoted text"));
    let d = parse_contagion("content: EMPTY");
    assert_eq!(d.content, None);
    let d = parse_contagion("CONTENT: a\rb");
    assert_eq!(d.content.as_deref(), Some("a b"));
    let d = parse_contagion("CONTENT: \"\"");
    assert_eq!(d.content, None);
}

#[test]
fn ranking_skips_zero_huge_and_keeps_leading_zeros() {
    assert_eq!(parse_perception_ranking("0, 02, 99999999999999999999999, 1", 3, 5), vec![1, 0]);
    assert_eq!(parse_perception_ranking("1 2 3", 3, 0), Vec::<usize>::new());
    assert_eq!(parse_perception_ranking("3 2 1", 3, 1), vec![2]);
}

#[test]
fn strict_replies_read_back_as_written() {
    let emotions = [Emotion::Calm, Emotion::Moderate, Emotion::Intense];
    let attitudes = [Attitude::Negative, Attitude::Positive];
    let behaviors = [Behavior::Repost, Behavior::Post, Behavior::Inactive];
    let content = "Facts first: EMOTION: calm is not my mood";
    for e in emotions {
        for a in attitudes {
            for b in behaviors {
                let reply = format!(
                    "EMOTION: {}\nATTITUDE: {}\nBEHAVIOR: {}\nCONTENT: {}",
                    e.label(),
                    a.label(),
                    b.label(),
                    content
                );
                let d = parse_contagion(&reply);
                assert_eq!(d.emotion, Some(e));
                assert_eq!(d.attitude, Some(a));
                assert_eq!(d.behavior, Some(b));
                assert_eq!(d.content.as_deref(), Some(content));
            }
        }
    }
}

#[test]
fn lowercase_key_and_quoted_content_are_read() {
    let d = parse_contagion("content:   \"Hello there\"  \nEMOTION: Intense");
    assert_eq!(d.content.as_deref(), Some("Hello there"));
    assert_eq!(d.emotion, Some(Emotion::Intense));
}

#[test]
fn number_lists_read_back_as_indices() {
    assert_eq!(parse_perception_ranking("4, 2, 7, 1", 7, 3), vec![3, 1, 6]);
    assert_eq!(parse_perception_ranking("4, 2", 7, 5), vec![3, 1]);
    assert_eq!(parse_perception_ranking("10, 12", 12, 2), vec![9, 11]);
}
