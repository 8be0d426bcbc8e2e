use std::cmp::Ordering;

use rusty_todo::descriptor::{text_cmp, Descriptor};
use rusty_todo::error::TodoError;
use rusty_todo::input::{parse_ids, trim_str};
use rusty_todo::printer::{Printer, Style};
use rusty_todo::text::{all_space, parse_decimal};

fn desc(priority: usize, id: usize, group: Option<&str>) -> Descriptor {
    Descriptor { priority, id, group: group.map(|g| g.to_string()) }
}

#[test]
fn encode_examples() {
    assert_eq!(desc(0, 1, None).encode(), "0-1-0");
    assert_eq!(desc(12, 305, Some("work")).encode(), "12-305-1work");
    assert_eq!(desc(3, 2, Some("a-b")).encode(), "3-2-1a-b");
}

#[test]
fn round_trip_corpus() {
    let corpus = vec![
        desc(0, 1, None),
        desc(0, 0, None),
        desc(3, 17, Some("home")),
        desc(1, 2, Some("0")),
        desc(1, 2, Some("1")),
        desc(2, 9, Some("10-x")),
        desc(usize::MAX, usize::MAX, Some("é")),
    ];
    for d in corpus {
        assert_eq!(Descriptor::decode(&d.encode()), Ok(d));
    }
}

#[test]
fn decode_rejects_malformed() {
    for s in ["abc-1-0", "1-1", "1-1-2", "1-1-1", "", "-1-0", "1--0", "1-1-", "1-1-00"] {
        assert_eq!(Descriptor::decode(s).err(), Some(TodoError::MalformedDescriptor), "{s}");
    }
    assert_eq!(
        Descriptor::decode("99999999999999999999999-1-0").err(),
        Some(TodoError::MalformedDescriptor)
    );
}

#[test]
fn decode_accepts_leading_zeros_and_dashes_in_group() {
    assert_eq!(Descriptor::decode("007-02-1a-b"), Ok(desc(7, 2, Some("a-b"))));
    assert_eq!(Descriptor::decode("+1-2-0"), Ok(desc(1, 2, None)));
    assert_ne!(Descriptor::decode("1-2-0"), Ok(desc(1, 3, None)));
}

#[test]
fn descriptor_order() {
    assert_eq!(desc(1, 1, None).cmp(&desc(2, 1, None)), Ordering::Less);
    assert_eq!(desc(1, 1, None).cmp(&desc(1, 1, Some("a"))), Ordering::Less);
    assert_eq!(desc(1, 1, Some("b")).cmp(&desc(1, 1, Some("a"))), Ordering::Greater);
    // a lower id sorts later, so that it is shown first
    assert_eq!(desc(1, 1, None).cmp(&desc(1, 2, None)), Ordering::Greater);
    assert_eq!(desc(1, 2, Some("x")).cmp(&desc(1, 2, Some("x"))), Ordering::Equal);
    assert_eq!(text_cmp("ab", "abc"), Ordering::Less);
    assert_eq!(text_cmp("b", "abc"), Ordering::Greater);
}

#[test]
fn describe_suffix() {
    let p = desc(5, 3, Some("work")).describe(Printer::new());
    let segs: Vec<(String, Style)> =
        p.segments().iter().map(|s| (s.text.clone(), s.style)).collect();
    assert_eq!(
        segs,
        vec![
            (" (3)".to_string(), Style::Green),
            (" (work)".to_string(), Style::Yellow),
            (" (***)".to_string(), Style::BoldRed),
        ]
    );
    let p = desc(0, 12, None).describe(Printer::new());
    assert_eq!(p.segments().len(), 1);
    assert_eq!(p.segments()[0].text, " (12)");
    let p = desc(1, 1, None).describe(Printer::new());
    assert_eq!(p.segments()[1].text, " (*)");
}

#[test]
fn parse_ids_pieces() {
    let (ids, bad) = parse_ids(" 1 ,2,, 33 ,-4, 5x ,+7");
    assert_eq!(ids, vec![1, 2, 33, 7]);
    assert_eq!(bad, vec!["".to_string(), "-4".to_string(), "5x".to_string()]);
    let (ids, bad) = parse_ids("");
    assert!(ids.is_empty());
    assert_eq!(bad, vec!["".to_string()]);
}

#[test]
fn text_helpers() {
    assert_eq!(trim_str("\u{3000} a b \t"), "a b");
    assert_eq!(trim_str("   "), "");
    assert!(all_space(""));
    assert!(all_space(" \u{a0}\u{2003}"));
    assert!(!all_space(" x "));
    assert_eq!(parse_decimal("0042"), Some(42));
    assert_eq!(parse_decimal("18446744073709551615"), Some(usize::MAX));
    assert_eq!(parse_decimal("18446744073709551616"), None);
    assert_eq!(parse_decimal("+1"), Some(1));
    assert_eq!(parse_decimal("+"), None);
    assert_eq!(parse_decimal("++1"), None);
    assert_eq!(parse_decimal("-1"), None);
    assert_eq!(parse_decimal(""), None);
}
