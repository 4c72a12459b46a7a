use mvn_version::{ArtifactVersion, ComparableVersion, Item, Segment};
use std::cmp::Ordering;

fn cmp(a: &str, b: &str) -> Ordering {
    ComparableVersion::new(a).cmp(&ComparableVersion::new(b))
}

#[test]
fn order_is_antisymmetric_on_samples() {
    let samples = [
        "1", "1.0", "1-alpha-1", "1-beta", "1-SNAPSHOT", "1-sp", "1-xyz", "1-1", "2.0.1-123",
        "1.2.3-10000000000", "", "-", "1..2", "1.ga.2", "a", "1-0-x",
    ];
    for a in samples.iter() {
        for b in samples.iter() {
            assert_eq!(cmp(a, b), cmp(b, a).reverse(), "{} {}", a, b);
            assert_eq!(cmp(a, b) == Ordering::Equal, ComparableVersion::new(a) == ComparableVersion::new(b));
        }
    }
}

#[test]
fn empty_word_inside_a_segment_breaks_transitivity() {
    assert_eq!(cmp("1", "1.ga.2"), Ordering::Less);
    assert_eq!(cmp("1.ga.2", "1-alpha-1"), Ordering::Less);
    assert_eq!(cmp("1", "1-alpha-1"), Ordering::Greater);
}

#[test]
fn zero_before_a_pre_release_word_makes_a_cycle() {
    assert_eq!(cmp("1", "1-xyz"), Ordering::Less);
    assert_eq!(cmp("1-xyz", "1-0.alpha"), Ordering::Less);
    assert_eq!(cmp("1-0.alpha", "1"), Ordering::Less);
}

#[test]
fn trailing_zero_and_dash_zero_are_equal() {
    for s in ["1.0", "1.0.0", "1-0", "1.0-0"] {
        assert_eq!(cmp("1", s), Ordering::Equal);
    }
}

#[test]
fn aliases_fold() {
    assert_eq!(cmp("1ga", "1"), Ordering::Equal);
    assert_eq!(cmp("1release", "1"), Ordering::Equal);
    assert_eq!(cmp("1b2", "1-beta-2"), Ordering::Equal);
    assert_eq!(cmp("1m3", "1-milestone-3"), Ordering::Equal);
    assert_eq!(cmp("1Cr", "1Rc"), Ordering::Equal);
}

#[test]
fn qualifiers_rank() {
    let chain = ["1-alpha-1", "1-beta-1", "1-milestone-1", "1-rc-1", "1-SNAPSHOT", "1", "1-sp", "1-xyz"];
    for w in chain.windows(2) {
        assert_eq!(cmp(w[0], w[1]), Ordering::Less, "{} {}", w[0], w[1]);
    }
}

#[test]
fn numbers_beat_qualifiers() {
    assert_eq!(cmp("2.0.1", "2.0.1-xyz"), Ordering::Less);
    assert_eq!(cmp("2.0.1-xyz", "2.0.1-123"), Ordering::Less);
}

#[test]
fn big_numbers_compare_by_value() {
    assert_eq!(cmp("1.2.3-10000000000", "1.2.3-10000000001"), Ordering::Less);
    assert_eq!(cmp("1.2.3-1", "1.2.3-10000000001"), Ordering::Less);
    assert_eq!(cmp("1.2.3-999999999", "1.2.3-1000000000"), Ordering::Less);
    assert_eq!(cmp("1-0010000000000", "1-10000000000"), Ordering::Equal);
    assert_eq!(ComparableVersion::new("1-0010000000000"), ComparableVersion::new("1-10000000000"));
}

#[test]
fn canonical_forms() {
    assert_eq!(ComparableVersion::new("1.0A1").canonical(), "1-alpha-1");
    assert_eq!(ComparableVersion::new("1.0.0").canonical(), "1");
    assert_eq!(ComparableVersion::new("1.2-0-x").canonical(), "1.2--x");
    assert_eq!(ComparableVersion::new("1-00012345678901").canonical(), "1-12345678901");
    assert_eq!(ComparableVersion::new("1.2.3cr-FINAL").canonical(), "1.2.3-rc");
    assert_eq!(ComparableVersion::new("").canonical(), "");
    for s in ["1.0A1", "2.0.1-xyz-1", "1.2.3-10000000000", "1-SNAPSHOT", "1b2.rc"] {
        let once = ComparableVersion::new(s).canonical();
        let twice = ComparableVersion::new(&once).canonical();
        assert_eq!(once, twice, "{}", s);
    }
}

#[test]
fn empty_word_inside_a_segment_does_not_round_trip() {
    let once = ComparableVersion::new("1.ga.2").canonical();
    assert_eq!(once, "1..2");
    assert_eq!(ComparableVersion::new(&once).canonical(), "1.0.2");
}

#[test]
fn parsing_takes_the_lowered_text_as_given() {
    let v = ComparableVersion::from_lowered("1.0A1", "1.0a1");
    assert_eq!(v.canonical(), "1-alpha-1");
    assert_eq!(v.as_str(), "1.0A1");
    assert_eq!(ComparableVersion::from_lowered("1.0A1", "1.0A1").canonical(), "1-A-1");
    assert_eq!(ComparableVersion::new("1.0A1").canonical(), "1-alpha-1");
}

#[test]
fn items_and_segments_render() {
    let s = Segment::new(vec![Item::Int(12), Item::BigInt(vec!['1'; 10]), Item::from_str("cr", false)]);
    let text: String = s.render().into_iter().collect();
    assert_eq!(text, "12.1111111111.rc");
    let text: String = Item::Int(0).render().into_iter().collect();
    assert_eq!(text, "0");
    let text: String = Item::Int(4294967295).render().into_iter().collect();
    assert_eq!(text, "4294967295");
}

#[test]
fn original_text_is_kept() {
    assert_eq!(ComparableVersion::new("1.0A1").as_str(), "1.0A1");
    assert_eq!(ArtifactVersion::new(" 1.0 ").as_str(), " 1.0 ");
}

#[test]
fn decomposition_literal_cases() {
    let v = ArtifactVersion::new("1.2.3-1");
    assert_eq!((v.major(), v.minor(), v.incremental(), v.build()), (1, 2, 3, 1));
    assert_eq!(v.qualifier(), &None);
    let v = ArtifactVersion::new("1.2.3-alpha-1");
    assert_eq!((v.major(), v.minor(), v.incremental(), v.build()), (1, 2, 3, 0));
    assert_eq!(v.qualifier(), &Some("alpha-1".to_string()));
    let v = ArtifactVersion::new("02");
    assert_eq!((v.major(), v.minor(), v.incremental(), v.build()), (0, 0, 0, 0));
    assert_eq!(v.qualifier(), &Some("02".to_string()));
    let v = ArtifactVersion::new("1.2.3-200705301630");
    assert_eq!((v.major(), v.minor(), v.incremental(), v.build()), (1, 2, 3, 0));
    assert_eq!(v.qualifier(), &Some("200705301630".to_string()));
    let v = ArtifactVersion::new("1.0.0.-SNAPSHOT");
    assert_eq!((v.major(), v.minor(), v.incremental(), v.build()), (0, 0, 0, 0));
    assert_eq!(v.qualifier(), &Some("1.0.0.-SNAPSHOT".to_string()));
}

#[test]
fn decomposition_edges() {
    let v = ArtifactVersion::new("");
    assert_eq!(v.qualifier(), &Some(String::new()));
    let v = ArtifactVersion::new("1.2.3-2147483647");
    assert_eq!(v.build(), 2147483647);
    assert_eq!(v.qualifier(), &None);
    let v = ArtifactVersion::new("1.2.3-2147483648");
    assert_eq!(v.build(), 0);
    assert_eq!(v.qualifier(), &Some("2147483648".to_string()));
    let v = ArtifactVersion::new("1.+2");
    assert_eq!((v.major(), v.minor()), (1, 2));
    let v = ArtifactVersion::new("1-2.-x");
    assert_eq!(v.major(), 0);
    assert_eq!(v.qualifier(), &Some("1-2.-x".to_string()));
    let v = ArtifactVersion::new("1.2.3.beta-1");
    assert_eq!(v.qualifier(), &Some("1.2.3.beta-1".to_string()));
}

#[test]
fn artifact_order_delegates() {
    let pairs = [("1.0-alpha-1", "1.0"), ("2.0.1-xyz", "2.0.1-123"), ("1", "1.0.0"), ("02", "2")];
    for (a, b) in pairs {
        let x = ArtifactVersion::new(a);
        let y = ArtifactVersion::new(b);
        assert_eq!(x.cmp(&y), cmp(a, b));
        assert_eq!(x == y, ComparableVersion::new(a) == ComparableVersion::new(b));
    }
}

#[test]
fn item_words_and_absence() {
    assert!(Item::from_str("a", true) == Item::from_str("alpha", false));
    assert!(Item::from_str("a", false) != Item::from_str("alpha", false));
    assert!(Item::from_str("00cr", false) == Item::from_str("rc", false));
    assert!(Item::from_str("final", false).is_null());
    assert!(!Item::from_str("sp", false).is_null());
    assert_eq!(Item::from_str("sp", false).better_than_nothing(false), Ordering::Greater);
    assert_eq!(Item::from_str("sp", false).better_than_nothing(true), Ordering::Less);
    assert_eq!(Item::from_str("snapshot", false).better_than_nothing(false), Ordering::Less);
    assert_eq!(Item::from_str("ga", false).better_than_nothing(false), Ordering::Equal);
    assert_eq!(Item::Int(0).better_than_nothing(false), Ordering::Equal);
    assert_eq!(Item::Int(0).better_than_nothing(true), Ordering::Greater);
    assert_eq!(Item::from_str("b", true).cmp(&Item::from_str("m", true)), Ordering::Less);
    assert_eq!(Item::from_str("zzz", false).cmp(&Item::Int(0)), Ordering::Less);
}

#[test]
fn segments_strip_trailing_nulls() {
    let s = Segment::new(vec![Item::Int(1), Item::Int(0), Item::from_str("ga", false)]);
    let t = Segment::new(vec![Item::Int(1)]);
    assert!(s == t);
    assert!(!s.is_null());
    assert!(Segment::new(vec![Item::Int(0), Item::Int(0)]).is_null());
    assert_eq!(s.better_than_nothing(), Ordering::Greater);
    let mut u = Segment::new(vec![Item::from_str("alpha", false)]);
    u.set_last_segment();
    assert_eq!(u.better_than_nothing(), Ordering::Less);
    assert_eq!(u.cmp(&t), Ordering::Less);
}
