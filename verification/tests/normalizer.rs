use lighter::compile::build;
use lighter::{
    lighter, normalize, parse_arm, BuildError, Entry, FallbackRule, MatchKind, Pattern, Rule,
    RuleSet, Source,
};

fn lit(text: &str) -> Pattern {
    Pattern::Literal(text.as_bytes().to_vec())
}

fn prefix(text: &str) -> Pattern {
    Pattern::Prefix(Box::new(lit(text)))
}

fn keys(set: &RuleSet) -> Vec<(Vec<u8>, MatchKind, usize)> {
    set.entries.iter().map(|e| (e.bytes.clone(), e.kind, e.action)).collect()
}

#[test]
fn literal_normalizes_to_exact_entry() {
    let set = normalize(&vec![lit("ab"), Pattern::Wildcard]).unwrap();
    assert_eq!(keys(&set), vec![(b"ab".to_vec(), MatchKind::Exact, 0)]);
    assert!(matches!(set.fallback, Some(FallbackRule::Wildcard(1))));
}

#[test]
fn prefix_of_literal_normalizes_to_prefix_entry() {
    let set = normalize(&vec![prefix("ab")]).unwrap();
    assert_eq!(keys(&set), vec![(b"ab".to_vec(), MatchKind::Prefix, 0)]);
    assert!(set.fallback.is_none());
}

#[test]
fn alternation_expands_in_order_with_one_action() {
    let set = normalize(&vec![
        lit("z"),
        Pattern::Or(vec![lit("a"), Pattern::Or(vec![prefix("b"), lit("c")]), lit("d")]),
    ])
    .unwrap();
    assert_eq!(
        keys(&set),
        vec![
            (b"z".to_vec(), MatchKind::Exact, 0),
            (b"a".to_vec(), MatchKind::Exact, 1),
            (b"b".to_vec(), MatchKind::Prefix, 1),
            (b"c".to_vec(), MatchKind::Exact, 1),
            (b"d".to_vec(), MatchKind::Exact, 1),
        ]
    );
}

#[test]
fn binder_becomes_the_fallback_with_its_name() {
    let set = normalize(&vec![Pattern::Binder("rest".to_string())]).unwrap();
    assert!(set.entries.is_empty());
    match set.fallback {
        Some(FallbackRule::Binder(name, action)) => {
            assert_eq!(name, "rest");
            assert_eq!(action, 0);
        }
        other => panic!("unexpected fallback {:?}", other),
    }
}

#[test]
fn fallback_inside_alternation_counts() {
    let set = normalize(&vec![Pattern::Or(vec![lit("a"), Pattern::Wildcard])]).unwrap();
    assert_eq!(keys(&set), vec![(b"a".to_vec(), MatchKind::Exact, 0)]);
    assert!(matches!(set.fallback, Some(FallbackRule::Wildcard(0))));
}

#[test]
fn same_bytes_with_different_kind_are_no_duplicate() {
    let set = normalize(&vec![lit("a"), prefix("a"), Pattern::Wildcard]).unwrap();
    assert_eq!(set.entries.len(), 2);
}

#[test]
fn duplicate_exact_entries_are_refused() {
    assert_eq!(normalize(&vec![lit("a"), lit("a")]).err(), Some(BuildError::DuplicatePattern));
}

#[test]
fn duplicate_prefix_entries_are_refused() {
    assert_eq!(
        normalize(&vec![prefix("a"), lit("b"), prefix("a")]).err(),
        Some(BuildError::DuplicatePattern)
    );
}

#[test]
fn duplicate_inside_one_alternation_is_refused() {
    assert_eq!(
        normalize(&vec![Pattern::Or(vec![lit("a"), lit("a")])]).err(),
        Some(BuildError::DuplicatePattern)
    );
}

#[test]
fn second_fallback_is_refused() {
    assert_eq!(
        normalize(&vec![Pattern::Wildcard, Pattern::Binder("x".to_string())]).err(),
        Some(BuildError::MultipleFallback)
    );
    assert_eq!(
        normalize(&vec![Pattern::Wildcard, lit("a"), Pattern::Wildcard]).err(),
        Some(BuildError::MultipleFallback)
    );
}

#[test]
fn shapes_outside_the_set_are_refused() {
    for pattern in [
        Pattern::Range(b'a', b'z'),
        Pattern::Guarded(Box::new(lit("a"))),
        Pattern::Guarded(Box::new(Pattern::Wildcard)),
        Pattern::Tuple(vec![lit("a"), lit("b")]),
        Pattern::Tuple(Vec::new()),
        Pattern::Prefix(Box::new(Pattern::Wildcard)),
        Pattern::Prefix(Box::new(Pattern::Or(vec![lit("a")]))),
        Pattern::Prefix(Box::new(prefix("a"))),
        Pattern::Prefix(Box::new(Pattern::Binder("x".to_string()))),
        Pattern::Or(vec![lit("a"), Pattern::Range(0, 9)]),
    ] {
        assert_eq!(normalize(&vec![pattern]).err(), Some(BuildError::UnsupportedPattern));
    }
}

#[test]
fn first_offending_leaf_decides_the_error() {
    assert_eq!(
        normalize(&vec![lit("a"), lit("a"), Pattern::Wildcard, Pattern::Wildcard]).err(),
        Some(BuildError::DuplicatePattern)
    );
    assert_eq!(
        normalize(&vec![Pattern::Wildcard, Pattern::Wildcard, lit("a"), lit("a")]).err(),
        Some(BuildError::MultipleFallback)
    );
    assert_eq!(
        normalize(&vec![Pattern::Range(1, 2), lit("a"), lit("a")]).err(),
        Some(BuildError::UnsupportedPattern)
    );
}

#[test]
fn empty_alternation_adds_nothing() {
    let set = normalize(&vec![Pattern::Or(Vec::new()), Pattern::Wildcard]).unwrap();
    assert!(set.entries.is_empty());
    assert!(matches!(set.fallback, Some(FallbackRule::Wildcard(1))));
}

#[test]
fn parse_arm_adds_to_an_existing_rule_set() {
    let mut set = RuleSet::new();
    assert_eq!(parse_arm(&mut set, &lit("a"), 4), Ok(()));
    assert_eq!(parse_arm(&mut set, &Pattern::Or(vec![prefix("a"), lit("b")]), 9), Ok(()));
    assert_eq!(parse_arm(&mut set, &lit("b"), 5), Err(BuildError::DuplicatePattern));
    assert_eq!(
        keys(&set),
        vec![
            (b"a".to_vec(), MatchKind::Exact, 4),
            (b"a".to_vec(), MatchKind::Prefix, 9),
            (b"b".to_vec(), MatchKind::Exact, 9),
        ]
    );
    assert!(set.contains(b"a", MatchKind::Prefix));
    assert!(!set.contains(b"b", MatchKind::Prefix));
    assert!(!set.contains(b"", MatchKind::Exact));
}

#[test]
fn parse_arm_changes_nothing_where_it_fails() {
    let mut set = RuleSet::new();
    parse_arm(&mut set, &lit("a"), 0).unwrap();
    let failing = Pattern::Or(vec![lit("c"), Pattern::Wildcard, prefix("d"), lit("a")]);
    assert_eq!(parse_arm(&mut set, &failing, 1), Err(BuildError::DuplicatePattern));
    assert_eq!(keys(&set), vec![(b"a".to_vec(), MatchKind::Exact, 0)]);
    assert!(set.fallback.is_none());
    parse_arm(&mut set, &Pattern::Binder("x".to_string()), 2).unwrap();
    let failing = Pattern::Or(vec![lit("c"), Pattern::Or(vec![lit("d"), Pattern::Wildcard])]);
    assert_eq!(parse_arm(&mut set, &failing, 3), Err(BuildError::MultipleFallback));
    assert_eq!(keys(&set), vec![(b"a".to_vec(), MatchKind::Exact, 0)]);
    assert!(matches!(set.fallback, Some(FallbackRule::Binder(_, 2))));
    let failing = Pattern::Or(vec![lit("c"), Pattern::Range(1, 2)]);
    assert_eq!(parse_arm(&mut set, &failing, 4), Err(BuildError::UnsupportedPattern));
    assert_eq!(set.entries.len(), 1);
}

fn entry(text: &str, kind: MatchKind, action: usize) -> Entry {
    Entry { bytes: text.as_bytes().to_vec(), kind, action }
}

#[test]
fn build_refuses_duplicate_entries_before_a_missing_fallback() {
    let set = RuleSet {
        entries: vec![entry("a", MatchKind::Exact, 0), entry("a", MatchKind::Exact, 1)],
        fallback: None,
    };
    assert_eq!(build(&set).err(), Some(BuildError::DuplicatePattern));
    let set = RuleSet {
        entries: vec![entry("a", MatchKind::Prefix, 0), entry("a", MatchKind::Prefix, 1)],
        fallback: Some(FallbackRule::Wildcard(2)),
    };
    assert_eq!(build(&set).err(), Some(BuildError::DuplicatePattern));
}

#[test]
fn build_refuses_a_rule_set_without_fallback() {
    let set = RuleSet { entries: vec![entry("a", MatchKind::Exact, 0)], fallback: None };
    assert_eq!(build(&set).err(), Some(BuildError::IncompleteMatch));
    let set = RuleSet {
        entries: vec![entry("", MatchKind::Exact, 0), entry("", MatchKind::Prefix, 1)],
        fallback: None,
    };
    assert_eq!(build(&set).err(), Some(BuildError::IncompleteMatch));
}

#[test]
fn build_accepts_distinct_entries_with_fallback() {
    let set = RuleSet {
        entries: vec![
            entry("ab", MatchKind::Exact, 0),
            entry("ab", MatchKind::Prefix, 1),
            entry("a", MatchKind::Exact, 2),
        ],
        fallback: Some(FallbackRule::Binder("rest".to_string(), 3)),
    };
    let trie = build(&set).unwrap();
    let mut source = Source::new("ab".bytes().map(Ok::<u8, ()>));
    assert_eq!(trie.run(&mut source).unwrap().action, 0);
    let mut source = Source::new("abc".bytes().map(Ok::<u8, ()>));
    assert_eq!(trie.run(&mut source).unwrap().action, 1);
    let mut source = Source::new("a".bytes().map(Ok::<u8, ()>));
    assert_eq!(trie.run(&mut source).unwrap().action, 2);
    let mut source = Source::new("b".bytes().map(Ok::<u8, ()>));
    let s = trie.run(&mut source).unwrap();
    assert_eq!((s.action, s.bound), (3, Some(b"b".to_vec())));
}

#[test]
fn order_of_entries_does_not_change_the_matches() {
    let entries = [
        ("ab", MatchKind::Exact, 0),
        ("a", MatchKind::Prefix, 1),
        ("b", MatchKind::Exact, 2),
        ("ba", MatchKind::Prefix, 3),
        ("", MatchKind::Exact, 4),
    ];
    let build_in = |order: &[usize]| {
        let set = RuleSet {
            entries: order.iter().map(|&i| entry(entries[i].0, entries[i].1, entries[i].2)).collect(),
            fallback: Some(FallbackRule::Binder("rest".to_string(), 5)),
        };
        build(&set).unwrap()
    };
    let forward = build_in(&[0, 1, 2, 3, 4]);
    for order in [[4, 3, 2, 1, 0], [2, 0, 4, 1, 3], [1, 4, 0, 3, 2]] {
        let other = build_in(&order);
        for input in ["", "a", "ab", "abc", "b", "ba", "bab", "bb", "c"] {
            let mut first = Source::new(input.bytes().map(Ok::<u8, ()>));
            let mut second = Source::new(input.bytes().map(Ok::<u8, ()>));
            assert_eq!(forward.run(&mut first), other.run(&mut second));
        }
    }
}

#[test]
fn unsupported_pattern_fails_the_whole_compilation() {
    let r = lighter(vec![
        Rule { pattern: lit("a"), action: 1 },
        Rule { pattern: Pattern::Range(b'0', b'9'), action: 2 },
        Rule { pattern: Pattern::Wildcard, action: 3 },
    ]);
    assert_eq!(r.err(), Some(BuildError::UnsupportedPattern));
}

#[test]
fn multiple_fallbacks_fail_the_whole_compilation() {
    let r = lighter(vec![
        Rule { pattern: Pattern::Wildcard, action: 1 },
        Rule { pattern: Pattern::Binder("b".to_string()), action: 2 },
    ]);
    assert_eq!(r.err(), Some(BuildError::MultipleFallback));
}
