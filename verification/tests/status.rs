use recipedia::status::{
    compare_versions, dense_ranks, derive_with_epoch, full_text, plain_text, State, Upstream, Version, VersionText,
};
use std::cmp::Ordering;

/// `text` at its place among `ascending`, the upstream versions at hand.
fn upstream(ascending: &[&str], text: &str) -> Upstream {
    let rank = ascending.iter().position(|v| *v == text).unwrap();
    Upstream { text: text.to_string(), rank: rank as u64 }
}

/// A text that is read as an upstream version alone.
fn bare(ascending: &[&str], text: &str) -> VersionText {
    VersionText { bare: upstream(ascending, text), parsed: None }
}

/// A text that is read as an upstream version with a release.
fn released(ascending: &[&str], whole: &str, text: &str, release: u32) -> VersionText {
    VersionText {
        bare: Upstream { text: whole.to_string(), rank: 1000 },
        parsed: Some(Version { epoch: 0, upstream: upstream(ascending, text), release }),
    }
}

#[test]
fn segment_ordering() {
    let known = ["1.2.3", "1.9", "1.10", "2.9", "2.44", "22.1.8"];
    assert_eq!(compare_versions(&bare(&known, "1.10"), &bare(&known, "1.9")), Ordering::Greater);
    assert_eq!(compare_versions(&bare(&known, "1.2.3"), &bare(&known, "1.2.3")), Ordering::Equal);
    assert_eq!(
        compare_versions(
            &released(&known, "22.1.8-2", "22.1.8", 2),
            &released(&known, "22.1.8-10", "22.1.8", 10)
        ),
        Ordering::Less
    );
    assert_eq!(compare_versions(&bare(&known, "2.44"), &bare(&known, "2.9")), Ordering::Greater);
}

#[test]
fn states() {
    let known = ["1.0", "1.1", "1.9", "2.0"];
    let v = |text: &str| upstream(&known, text);
    assert_eq!(recipedia::status::derive(&v("1.0"), "1", None), State::Missing);
    assert_eq!(
        recipedia::status::derive(&v("2.0"), "1", Some((&v("1.9"), "4"))),
        State::Outdated
    );
    assert_eq!(recipedia::status::derive(&v("1.0"), "1", Some((&v("1.0"), "1"))), State::Built);
    assert_eq!(recipedia::status::derive(&v("1.0"), "1", Some((&v("1.1"), "1"))), State::Ahead);
}

#[test]
fn releases_and_epochs_decide_between_equal_versions() {
    let known = ["1.0", "2.0"];
    let one = upstream(&known, "1.0");
    let two = upstream(&known, "2.0");
    let derive = recipedia::status::derive;
    assert_eq!(derive(&one, "2", Some((&one, "1"))), State::Outdated);
    assert_eq!(derive(&one, "1", Some((&one, "2"))), State::Ahead);
    // A release that is no number counts as zero.
    assert_eq!(derive(&one, "x", Some((&one, "0"))), State::Built);
    assert_eq!(derive(&one, "x", Some((&one, "1"))), State::Ahead);
    assert_eq!(derive(&one, "4294967296", Some((&one, "0"))), State::Built);
    assert_eq!(derive_with_epoch(1, &one, "1", Some((0, &two, "9"))), State::Outdated);
    assert_eq!(derive_with_epoch(0, &two, "9", Some((1, &one, "1"))), State::Ahead);
    assert_eq!(derive_with_epoch(3, &one, "1", Some((3, &one, "1"))), State::Built);
    assert_eq!(derive_with_epoch(3, &one, "1", None), State::Missing);
}

#[test]
fn labels() {
    assert_eq!(State::Missing.label(), "missing");
    assert_eq!(State::Outdated.label(), "outdated");
    assert_eq!(State::Built.label(), "built");
    assert_eq!(State::Ahead.label(), "ahead");
}

#[test]
fn versions_are_written_out() {
    assert_eq!(plain_text("1.0", "2"), "1.0-2");
    assert_eq!(full_text(3, "1.0", "2"), "3:1.0-2");
}

#[test]
fn ranks_rise_where_the_sorted_versions_do() {
    let sorted = ["1.9", "1.09", "1.10", "1.10", "2"];
    let key = |v: &str| -> Vec<u32> { v.split('.').map(|s| s.parse().unwrap()).collect() };
    let greater: Vec<bool> =
        (0..sorted.len()).map(|i| i > 0 && key(sorted[i - 1]) < key(sorted[i])).collect();
    assert_eq!(greater, [false, false, true, false, true]);
    let ranks = dense_ranks(&greater);
    assert_eq!(ranks, [0, 0, 1, 1, 2]);
    for i in 0..sorted.len() {
        for j in 0..sorted.len() {
            assert_eq!(ranks[i] <= ranks[j], key(sorted[i]) <= key(sorted[j]));
        }
    }
    assert_eq!(dense_ranks(&vec![true, true]), [0, 1]);
    assert!(dense_ranks(&Vec::new()).is_empty());
}
