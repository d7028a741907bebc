use s3_simulation::baseline::{parse_baseline, BaselineModel};
use s3_simulation::cli::{label_hash, split_csv};
use s3_simulation::config::{parse_network, NetworkKind};
use s3_simulation::record::{baseline_prefix, llm_provider};
use s3_simulation::world::{Attitude, Behavior, Emotion, Profile};

#[test]
fn parse_roundtrip() {
    for (s, m) in [
        ("lt", BaselineModel::LinearThreshold),
        ("ic", BaselineModel::IndependentCascade),
        ("voter", BaselineModel::Voter),
        ("degroot", BaselineModel::DeGroot),
    ] {
        assert_eq!(parse_baseline(s).unwrap(), m);
        assert_eq!(parse_baseline(m.label()).unwrap(), m);
    }
    assert!(parse_baseline("nope").is_err());
}

#[test]
fn baseline_aliases_and_progressive() {
    assert_eq!(parse_baseline("  Linear-Threshold ").unwrap(), BaselineModel::LinearThreshold);
    assert_eq!(parse_baseline("DE_GROOT").unwrap(), BaselineModel::DeGroot);
    assert!(BaselineModel::LinearThreshold.is_progressive());
    assert!(BaselineModel::IndependentCascade.is_progressive());
    assert!(!BaselineModel::Voter.is_progressive());
    assert!(!BaselineModel::DeGroot.is_progressive());
    assert_eq!(
        parse_baseline("x").unwrap_err(),
        "不正なベースラインモデル: \"x\" (lt / ic / voter / degroot)"
    );
}

#[test]
fn network_names_roundtrip() {
    for k in [NetworkKind::ErdosRenyi, NetworkKind::WattsStrogatz, NetworkKind::BarabasiAlbert] {
        assert_eq!(parse_network(k.label()).unwrap(), k);
    }
    assert_eq!(parse_network("Erdos-Renyi").unwrap(), NetworkKind::ErdosRenyi);
    assert_eq!(parse_network(" watts_strogatz").unwrap(), NetworkKind::WattsStrogatz);
    assert_eq!(parse_network("BA").unwrap(), NetworkKind::BarabasiAlbert);
    assert_eq!(
        parse_network("grid").unwrap_err(),
        "不正なネットワーク種別: \"grid\" (er / ws / ba)"
    );
}

#[test]
fn labels_read_back() {
    for e in [Emotion::Calm, Emotion::Moderate, Emotion::Intense] {
        assert_eq!(Emotion::parse(e.label()), Some(e));
    }
    for a in [Attitude::Negative, Attitude::Positive] {
        assert_eq!(Attitude::parse(a.label()), Some(a));
    }
    for b in [Behavior::Repost, Behavior::Post, Behavior::Inactive] {
        assert_eq!(Behavior::parse(b.label()), Some(b));
    }
    assert_eq!(Emotion::parse(" INTENSE\t"), Some(Emotion::Intense));
    assert_eq!(Attitude::parse("pos"), Some(Attitude::Positive));
    assert_eq!(Behavior::parse("Tweet"), Some(Behavior::Post));
    assert_eq!(Behavior::parse("idle"), Some(Behavior::Inactive));
    assert_eq!(Emotion::parse("angry"), None);
    assert!(Behavior::Repost.is_active());
    assert!(Behavior::Post.is_active());
    assert!(!Behavior::Inactive.is_active());
}

#[test]
fn profile_description() {
    let p = Profile { gender: "woman".into(), age: 27, occupation: "nurse".into() };
    assert_eq!(p.describe(), "a 27-year-old woman nurse");
    let p = Profile { gender: "man".into(), age: 8, occupation: "shop owner".into() };
    assert_eq!(p.describe(), "a 8-year-old man shop owner");
}

#[test]
fn prefix_and_provider() {
    assert_eq!(baseline_prefix(BaselineModel::IndependentCascade), "baseline_ic");
    assert_eq!(baseline_prefix(BaselineModel::DeGroot), "baseline_degroot");
    assert_eq!(llm_provider("mock://scripted"), "mock");
    assert_eq!(llm_provider("https://api.openai.com/v1"), "openai");
    assert_eq!(llm_provider("http://localhost:11434"), "ollama");
}

#[test]
fn csv_and_label_hash() {
    assert_eq!(split_csv(" er, ws ,,ba, "), vec!["er".to_string(), "ws".to_string(), "ba".to_string()]);
    assert_eq!(split_csv(""), Vec::<String>::new());
    // FNV-1a test vectors.
    assert_eq!(label_hash(""), 0xcbf29ce484222325);
    assert_eq!(label_hash("a"), 0xaf63dc4c8601ec8c);
    assert_eq!(label_hash("foobar"), 0x85944171f73967e8);
}
