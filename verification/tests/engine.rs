use lighter::matcher::{Selection, Step};
use lighter::source::{MatchIterator, MatchRefIterator, MatchStr, MaybeUnwrap, Source, Wrap};
use lighter::{BuildError, FallbackRule, Fired, MatchError, MatchKind, Node, Trie};
use std::convert::Infallible;

fn sample() -> Trie {
    let mut trie = Trie::new();
    assert_eq!(trie.insert_arm(b"he", MatchKind::Prefix, 0), Ok(()));
    assert_eq!(trie.insert_arm(b"hi", MatchKind::Exact, 1), Ok(()));
    assert_eq!(trie.insert_arm(b"h", MatchKind::Exact, 2), Ok(()));
    assert_eq!(trie.insert_wild(&Some(FallbackRule::Binder("rest".to_string(), 3))), Ok(()));
    trie
}

#[test]
fn node_finds_the_first_child_for_a_byte() {
    let mut node = Node::new(None);
    assert_eq!(node.find_arm(b'a'), None);
    node.children.push((b'a', 3));
    node.children.push((b'b', 5));
    assert_eq!(node.find_arm(b'a'), Some(3));
    assert_eq!(node.find_arm(b'b'), Some(5));
    assert_eq!(node.find_arm(b'c'), None);
}

#[test]
fn insert_arm_shares_prefixes() {
    let trie = sample();
    let root = trie.root();
    let h = trie.find_arm(root, b'h').unwrap();
    let he = trie.find_arm(h, b'e').unwrap();
    let hi = trie.find_arm(h, b'i').unwrap();
    assert_ne!(he, hi);
    assert_eq!(trie.find_arm(root, b'x'), None);
    assert_eq!(trie.find_arm(he, b'l'), None);
    assert_eq!(trie.on_end(h), Some(2));
    assert_eq!(trie.on_continue(h), None);
    assert_eq!(trie.on_end(hi), Some(1));
    assert_eq!(trie.on_continue(he), Some(0));
    assert_eq!(trie.on_end(he), None);
    assert_eq!(trie.on_end(root), None);
}

#[test]
fn insert_arm_refuses_a_taken_slot_and_changes_nothing() {
    let mut trie = sample();
    assert_eq!(trie.insert_arm(b"hi", MatchKind::Exact, 9), Err(BuildError::DuplicatePattern));
    assert_eq!(trie.insert_arm(b"he", MatchKind::Prefix, 9), Err(BuildError::DuplicatePattern));
    let h = trie.find_arm(trie.root(), b'h').unwrap();
    let hi = trie.find_arm(h, b'i').unwrap();
    assert_eq!(trie.on_end(hi), Some(1));
    assert_eq!(trie.insert_arm(b"hi", MatchKind::Prefix, 9), Ok(()));
    assert_eq!(trie.on_continue(hi), Some(9));
}

#[test]
fn insert_wild_installs_the_fallback_at_every_node() {
    let mut trie = Trie::new();
    trie.insert_arm(b"abc", MatchKind::Exact, 0).unwrap();
    let root = trie.root();
    assert!(trie.fallback(root).is_none());
    assert_eq!(trie.insert_wild(&None), Err(BuildError::IncompleteMatch));
    assert!(trie.fallback(root).is_none());
    assert_eq!(trie.insert_wild(&Some(FallbackRule::Wildcard(7))), Ok(()));
    let a = trie.find_arm(root, b'a').unwrap();
    let ab = trie.find_arm(a, b'b').unwrap();
    let abc = trie.find_arm(ab, b'c').unwrap();
    for node in [root, a, ab, abc] {
        assert!(matches!(trie.fallback(node), Some(FallbackRule::Wildcard(7))));
    }
}

#[test]
fn nodes_added_after_the_fallback_inherit_it() {
    let mut trie = Trie::new();
    trie.insert_wild(&Some(FallbackRule::Wildcard(7))).unwrap();
    trie.insert_arm(b"q", MatchKind::Exact, 0).unwrap();
    let q = trie.find_arm(trie.root(), b'q').unwrap();
    assert!(matches!(trie.fallback(q), Some(FallbackRule::Wildcard(7))));
}

#[test]
fn children_list_each_byte_once() {
    let trie = sample();
    let root = trie.root();
    assert_eq!(trie.len(), 4);
    assert_eq!(trie.children(root).len(), 1);
    let (byte, h) = trie.children(root)[0];
    assert_eq!(byte, b'h');
    assert_eq!(trie.find_arm(root, b'h'), Some(h));
    let mut bytes: Vec<u8> = trie.children(h).iter().map(|pair| pair.0).collect();
    bytes.sort();
    assert_eq!(bytes, vec![b'e', b'i']);
    for (byte, child) in trie.children(h).clone() {
        assert_eq!(trie.find_arm(h, byte), Some(child));
        assert!(h < child && child < trie.len());
        assert!(trie.children(child).is_empty());
    }
}

#[test]
fn installed_fallback_is_the_rule_given() {
    let trie = sample();
    match trie.installed(trie.root()) {
        FallbackRule::Binder(name, action) => {
            assert_eq!(name, "rest");
            assert_eq!(*action, 3);
        }
        other => panic!("unexpected fallback {:?}", other),
    }
}

fn shareable<T: Send + Sync>(_: &T) {}

#[test]
fn compiled_trie_can_be_shared() {
    let trie = sample();
    shareable(&trie);
    let first = trie.run(&mut Source::new("hi".bytes().map(Ok::<u8, ()>))).unwrap();
    let second = trie.run(&mut Source::new("hi".bytes().map(Ok::<u8, ()>))).unwrap();
    assert_eq!(first, second);
}

#[test]
fn step_by_step_walk() {
    let trie = sample();
    let walk = trie.start();
    assert_eq!(walk.path, Vec::<u8>::new());
    let walk = match trie.step::<()>(walk, Some(Ok(b'h'))) {
        Step::Continue(walk) => walk,
        other => panic!("ended early: {:?}", other),
    };
    assert_eq!(walk.path, b"h".to_vec());
    let walk = match trie.step::<()>(walk, Some(Ok(b'i'))) {
        Step::Continue(walk) => walk,
        other => panic!("ended early: {:?}", other),
    };
    assert_eq!(walk.path, b"hi".to_vec());
    match trie.step::<()>(walk, None) {
        Step::Done(Ok(s)) => assert_eq!(
            s,
            Selection { action: 1, fired: Fired::OnEnd, consumed: 2, bound: None }
        ),
        other => panic!("unexpected step {:?}", other),
    }
}

#[test]
fn step_on_failure_ends_with_source_failure() {
    let trie = sample();
    let walk = trie.start();
    match trie.step(walk, Some(Err("bad"))) {
        Step::Done(Err(MatchError::SourceFailure(e))) => assert_eq!(e, "bad"),
        other => panic!("unexpected step {:?}", other),
    }
}

#[test]
fn step_on_unknown_byte_ends_with_fallback() {
    let trie = sample();
    let walk = trie.start();
    match trie.step::<()>(walk, Some(Ok(b'z'))) {
        Step::Done(Ok(s)) => assert_eq!(
            s,
            Selection {
                action: 3,
                fired: Fired::Fallback,
                consumed: 1,
                bound: Some(b"z".to_vec()),
            }
        ),
        other => panic!("unexpected step {:?}", other),
    }
}

#[test]
fn step_on_a_byte_behind_a_prefix_hands_the_byte_back() {
    let trie = sample();
    let mut walk = trie.start();
    for byte in [b'h', b'e'] {
        walk = match trie.step::<()>(walk, Some(Ok(byte))) {
            Step::Continue(walk) => walk,
            other => panic!("ended early: {:?}", other),
        };
    }
    match trie.step::<()>(walk, Some(Ok(b'y'))) {
        Step::Ahead(s, byte) => {
            assert_eq!(
                s,
                Selection { action: 0, fired: Fired::OnContinue, consumed: 2, bound: None }
            );
            assert_eq!(byte, b'y');
        }
        other => panic!("unexpected step {:?}", other),
    }
}

#[test]
fn source_yields_what_it_holds_first() {
    let mut source = Source::new(vec![Ok::<u8, ()>(2), Err(()), Ok(3)].into_iter());
    source.put_back(1);
    assert_eq!(source.held, Some(1));
    assert_eq!(source.pull(), Some(Ok(1)));
    assert_eq!(source.held, None);
    assert_eq!(source.pull(), Some(Ok(2)));
    assert_eq!(source.pull(), Some(Err(())));
    assert_eq!(source.pull(), Some(Ok(3)));
    assert_eq!(source.pull(), None);
    assert_eq!(source.pull(), None);
}

#[test]
fn match_starts_with_the_byte_that_the_source_holds() {
    let trie = sample();
    let mut source = Source::new("i".bytes().map(Ok::<u8, ()>));
    source.put_back(b'h');
    assert_eq!(trie.run(&mut source).unwrap().action, 1);
}

#[test]
fn insert_arm_creates_a_node_for_each_missing_prefix() {
    let mut trie = Trie::new();
    assert_eq!(trie.len(), 1);
    trie.insert_arm(b"abc", MatchKind::Exact, 0).unwrap();
    assert_eq!(trie.len(), 4);
    trie.insert_arm(b"ab", MatchKind::Prefix, 1).unwrap();
    assert_eq!(trie.len(), 4);
    trie.insert_arm(b"abd", MatchKind::Exact, 2).unwrap();
    assert_eq!(trie.len(), 5);
    trie.insert_arm(b"", MatchKind::Exact, 3).unwrap();
    assert_eq!(trie.len(), 5);
    assert_eq!(trie.insert_arm(b"abc", MatchKind::Exact, 4), Err(BuildError::DuplicatePattern));
    assert_eq!(trie.len(), 5);
    let a = trie.find_arm(trie.root(), b'a').unwrap();
    let ab = trie.find_arm(a, b'b').unwrap();
    trie.insert_arm(b"xy", MatchKind::Exact, 5).unwrap();
    assert_eq!(trie.len(), 7);
    assert_eq!(trie.find_arm(trie.root(), b'a'), Some(a));
    assert_eq!(trie.find_arm(a, b'b'), Some(ab));
    trie.insert_wild(&Some(FallbackRule::Wildcard(9))).unwrap();
    assert_eq!(trie.len(), 7);
    assert_eq!(trie.find_arm(a, b'b'), Some(ab));
    assert_eq!(trie.on_continue(ab), Some(1));
}

#[test]
fn run_pulls_no_more_than_the_match_needs() {
    let trie = sample();
    let mut source = Source::new("hello".bytes().map(Ok::<u8, ()>));
    let s = trie.run(&mut source).unwrap();
    assert_eq!(
        s,
        Selection {
            action: 0,
            fired: Fired::OnContinue,
            consumed: 2,
            bound: None,
        }
    );
    assert_eq!(source.pull(), Some(Ok(b'l')));
    assert_eq!(source.pull(), Some(Ok(b'l')));
    assert_eq!(source.pull(), Some(Ok(b'o')));
    assert_eq!(source.pull(), None);
}

#[test]
fn run_terminates_on_a_source_without_end() {
    let trie = sample();
    let mut source = Source::new(std::iter::repeat(Ok::<u8, ()>(b'h')));
    let s = trie.run(&mut source).unwrap();
    assert_eq!((s.action, s.consumed, s.bound), (3, 2, Some(b"hh".to_vec())));
}

#[test]
fn owned_buffer_as_source() {
    let trie = sample();
    let mut wrap = Wrap(Some(b"hi".to_vec()));
    let mut source = Source::new(MatchIterator::bytes(&mut wrap));
    assert!(wrap.0.is_none());
    let r: Result<Selection, MatchError<Infallible>> = trie.run(&mut source);
    assert_eq!(r.unwrap().action, 1);
}

#[test]
fn owned_buffer_yields_its_bytes_in_order() {
    let mut wrap = Wrap(Some(vec![3u8, 1, 2]));
    let got: Vec<u8> = MatchIterator::bytes(&mut wrap).map(|r| r.unwrap()).collect();
    assert_eq!(got, vec![3, 1, 2]);
}

#[test]
fn fallible_sequence_as_source() {
    let trie = sample();
    let mut wrap = Wrap(Some(vec![Ok(b'h'), Err(5u8), Ok(b'i')]));
    let mut source = Source::new(MatchIterator::bytes(&mut wrap));
    assert_eq!(trie.run(&mut source), Err(MatchError::SourceFailure(5)));
    assert_eq!(source.pull(), Some(Ok(b'i')));
}

#[test]
fn borrowed_buffer_as_source() {
    let trie = sample();
    let buffer = b"h".to_vec();
    let mut wrap = Wrap(Some(buffer.as_slice()));
    let mut source = Source::new(MatchRefIterator::bytes(&mut wrap));
    assert_eq!(trie.run(&mut source).unwrap().action, 2);
    assert_eq!(buffer, b"h".to_vec());
}

#[test]
fn borrowed_fallible_sequence_as_source() {
    let bytes = [b'h', b'i'];
    let mut wrap = Wrap(Some(vec![Ok(&bytes[0]), Ok(&bytes[1]), Err("end")]));
    let got: Vec<Result<u8, &str>> = MatchRefIterator::bytes(&mut wrap).collect();
    assert_eq!(got, vec![Ok(b'h'), Ok(b'i'), Err("end")]);
}

#[test]
fn text_as_source() {
    let trie = sample();
    let mut wrap = Wrap(Some("hi"));
    let mut source = Source::new(MatchStr::bytes(&mut wrap));
    assert_eq!(trie.run(&mut source).unwrap().action, 1);
    let mut wrap = Wrap(Some(String::from("h\u{e9}")));
    let got: Vec<u8> = MatchStr::bytes(&mut wrap).map(|r| r.unwrap()).collect();
    assert_eq!(got, vec![b'h', 0xc3, 0xa9]);
}

#[test]
fn fallible_result_is_handed_out_as_it_is() {
    let mut wrap = Wrap(Some(Err::<u8, &str>("bad")));
    assert_eq!(wrap.maybe_unwrap(), Err("bad"));
    assert!(wrap.0.is_none());
    let mut wrap = Wrap(Some(Ok::<u8, &str>(4)));
    assert_eq!(wrap.maybe_unwrap(), Ok(4));
}

#[test]
fn result_of_a_source_that_cannot_fail_is_unwrapped() {
    let trie = sample();
    let mut wrap = Wrap(Some("hi"));
    let mut source = Source::new(MatchStr::bytes(&mut wrap));
    let mut result = Wrap(Some(trie.run(&mut source)));
    let selection: Selection = (&mut &mut result).maybe_unwrap();
    assert_eq!(selection.action, 1);
    assert!(result.0.is_none());
}

#[test]
fn infallible_result_is_unwrapped() {
    let mut wrap = Wrap(Some(Ok::<u8, Infallible>(4)));
    let value: u8 = (&mut &mut wrap).maybe_unwrap();
    assert_eq!(value, 4);
    assert!(wrap.0.is_none());
}
