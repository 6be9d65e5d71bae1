//! What holds of every rule set and every input: of matching first, then
//! of construction.

use crate::compile::{compile_spec, entries_map, key_of, lemma_entries_map};
use crate::matcher::{
    all_ok, at_end, pulled, result_view, select, step_spec, taken, walk, Fired, MatchError,
    Selection,
    SelectionView,
};
use crate::rules::{
    distinct_entries, lemma_normalize_distinct, normalize_spec, pattern_leaves, BuildError,
    EntryView, FallbackView, Leaf, MatchKind, Pattern, RuleSetView,
};
use crate::trie::{live, Key, TrieView};
use vstd::prelude::*;

verus! {

/// No `Prefix` entry lies on a proper prefix of `bytes`.
pub open spec fn unshadowed(t: TrieView, bytes: Seq<u8>) -> bool {
    forall|j: int|
        0 <= j < bytes.len() ==> !t.entries.contains_key((#[trigger] bytes.take(j), MatchKind::Prefix))
}

/// Every entry's bytes are at most `limit` long.
pub open spec fn within(t: TrieView, limit: nat) -> bool {
    forall|key: Key| #[trigger] t.entries.contains_key(key) ==> key.0.len() <= limit
}

/// The trie has a node for every prefix of an entry's bytes.
pub proof fn lemma_entry_extends(t: TrieView, key: Key, j: int)
    requires
        t.entries.contains_key(key),
        0 <= j <= key.0.len(),
    ensures
        t.extends(key.0.take(j)),
{
    assert(key.0.take(j).is_prefix_of(key.0));
}

/// A walk that meets the bytes of an entry, with no `Prefix` entry on the
/// way, descends along them.
pub proof fn lemma_descend<E>(
    t: TrieView,
    path: Seq<u8>,
    bytes: Seq<u8>,
    rest: Seq<Result<u8, E>>,
)
    requires
        forall|j: int|
            0 <= j < bytes.len() ==> !t.entries.contains_key(
                (path + #[trigger] bytes.take(j), MatchKind::Prefix),
            ),
        forall|j: int| 0 < j <= bytes.len() ==> t.extends(path + #[trigger] bytes.take(j)),
    ensures
        walk(t, path, all_ok::<E>(bytes) + rest) == walk(t, path + bytes, rest),
        pulled(t, path, all_ok::<E>(bytes) + rest) == bytes.len() + pulled(t, path + bytes, rest),
        taken(t, path, all_ok::<E>(bytes) + rest) == bytes.len() + taken(t, path + bytes, rest),
    decreases bytes.len(),
{
    let input = all_ok::<E>(bytes) + rest;
    if bytes.len() == 0 {
        assert(input =~= rest);
        assert(path + bytes =~= path);
    } else {
        let b = bytes[0];
        let tail = bytes.drop_first();
        assert(input[0] == Ok::<u8, E>(b));
        assert(path + bytes.take(0) =~= path);
        assert(path + bytes.take(1) =~= path.push(b));
        assert(input.drop_first() =~= all_ok::<E>(tail) + rest);
        assert forall|j: int| 0 <= j < tail.len() implies !t.entries.contains_key(
            (path.push(b) + #[trigger] tail.take(j), MatchKind::Prefix),
        ) by {
            assert(path.push(b) + tail.take(j) =~= path + bytes.take(j + 1));
        }
        assert forall|j: int| 0 < j <= tail.len() implies t.extends(
            path.push(b) + #[trigger] tail.take(j),
        ) by {
            assert(path.push(b) + tail.take(j) =~= path + bytes.take(j + 1));
        }
        lemma_descend(t, path.push(b), tail, rest);
        assert(path.push(b) + tail =~= path + bytes);
    }
}

/// A walk from the root descends along the bytes of an entry that no
/// `Prefix` entry shadows.
pub proof fn lemma_reach<E>(t: TrieView, key: Key, rest: Seq<Result<u8, E>>)
    requires
        t.entries.contains_key(key),
        unshadowed(t, key.0),
    ensures
        select(t, all_ok::<E>(key.0) + rest) == walk(t, key.0, rest),
        pulled(t, Seq::empty(), all_ok::<E>(key.0) + rest) == key.0.len() + pulled(t, key.0, rest),
        taken(t, Seq::empty(), all_ok::<E>(key.0) + rest) == key.0.len() + taken(t, key.0, rest),
{
    let bytes = key.0;
    let root = Seq::<u8>::empty();
    assert forall|j: int| 0 <= j < bytes.len() implies !t.entries.contains_key(
        (root + #[trigger] bytes.take(j), MatchKind::Prefix),
    ) by {
        assert(root + bytes.take(j) =~= bytes.take(j));
    }
    assert forall|j: int| 0 < j <= bytes.len() implies t.extends(root + #[trigger] bytes.take(j)) by {
        assert(root + bytes.take(j) =~= bytes.take(j));
        lemma_entry_extends(t, key, j);
    }
    lemma_descend(t, root, bytes, rest);
    assert(root + bytes =~= bytes);
}

/// Matching reads the trie and the source, nothing else: two matches of
/// the same trie against the same elements give the same result.
pub proof fn lemma_idempotent<E>(
    t: TrieView,
    input: Seq<Result<u8, E>>,
    first: Result<Selection, MatchError<E>>,
    second: Result<Selection, MatchError<E>>,
)
    requires
        result_view(first) == select(t, input),
        result_view(second) == select(t, input),
    ensures
        result_view(first) == result_view(second),
{
}

/// An `Exact` rule on `bytes` that no `Prefix` entry shadows is selected by
/// the source that yields `bytes` and then ends.
pub proof fn lemma_exact_round_trip<E>(t: TrieView, bytes: Seq<u8>)
    requires
        t.entries.contains_key((bytes, MatchKind::Exact)),
        unshadowed(t, bytes),
    ensures
        select(t, all_ok::<E>(bytes)) == Ok::<SelectionView, MatchError<E>>(
            SelectionView {
                action: t.entries[(bytes, MatchKind::Exact)],
                fired: Fired::OnEnd,
                consumed: bytes.len(),
                bound: None,
            },
        ),
{
    let rest = Seq::<Result<u8, E>>::empty();
    assert(all_ok::<E>(bytes) + rest =~= all_ok::<E>(bytes));
    lemma_reach(t, (bytes, MatchKind::Exact), rest);
}

/// An `Exact` entry fires only when the source ends: whatever fires as
/// `OnEnd` has consumed every element that the walk had before it.
pub proof fn lemma_on_end_consumes_all<E>(t: TrieView, path: Seq<u8>, rest: Seq<Result<u8, E>>)
    ensures
        walk(t, path, rest) matches Ok(s) ==> (s.fired == Fired::OnEnd ==> s.consumed == path.len()
            + rest.len()),
    decreases rest.len(),
{
    if rest.len() > 0 {
        if step_spec(t, path, Some(rest[0])) is None {
            lemma_on_end_consumes_all(t, path.push(rest[0]->Ok_0), rest.drop_first());
        }
    }
}

/// A source that yields `bytes` and then at least one more element never
/// selects the `Exact` rule on `bytes`.
pub proof fn lemma_exact_needs_end<E>(
    t: TrieView,
    bytes: Seq<u8>,
    next: Result<u8, E>,
    rest: Seq<Result<u8, E>>,
)
    ensures
        select(t, all_ok::<E>(bytes).push(next) + rest) matches Ok(s) ==> !(s.fired == Fired::OnEnd
            && s.consumed == bytes.len()),
{
    lemma_on_end_consumes_all(t, Seq::empty(), all_ok::<E>(bytes).push(next) + rest);
}

/// A match that selects an action takes out of the source exactly the
/// bytes that it consumed.
pub proof fn lemma_taken_is_consumed<E>(t: TrieView, path: Seq<u8>, rest: Seq<Result<u8, E>>)
    ensures
        walk(t, path, rest) matches Ok(s) ==> path.len() + taken(t, path, rest) == s.consumed,
    decreases rest.len(),
{
    if rest.len() > 0 {
        if step_spec(t, path, Some(rest[0])) is None {
            lemma_taken_is_consumed(t, path.push(rest[0]->Ok_0), rest.drop_first());
        }
    }
}

/// A `Prefix` rule on `bytes` that no other `Prefix` entry shadows is
/// selected as soon as a byte follows `bytes`, whatever comes after. The
/// match takes `bytes` alone out of the source: the byte that follows is
/// polled, stays in the source, and is the next that the source yields.
pub proof fn lemma_prefix_priority<E>(
    t: TrieView,
    bytes: Seq<u8>,
    next: u8,
    rest: Seq<Result<u8, E>>,
)
    requires
        t.entries.contains_key((bytes, MatchKind::Prefix)),
        unshadowed(t, bytes),
    ensures
        select(t, all_ok::<E>(bytes).push(Ok(next)) + rest) == Ok::<SelectionView, MatchError<E>>(
            SelectionView {
                action: t.entries[(bytes, MatchKind::Prefix)],
                fired: Fired::OnContinue,
                consumed: bytes.len(),
                bound: None,
            },
        ),
        pulled(t, Seq::empty(), all_ok::<E>(bytes).push(Ok(next)) + rest) == bytes.len() + 1,
        taken(t, Seq::empty(), all_ok::<E>(bytes).push(Ok(next)) + rest) == bytes.len(),
{
    let tail = seq![Ok::<u8, E>(next)] + rest;
    assert(all_ok::<E>(bytes).push(Ok(next)) + rest =~= all_ok::<E>(bytes) + tail);
    lemma_reach(t, (bytes, MatchKind::Prefix), tail);
    assert(tail[0] == Ok::<u8, E>(next));
}

/// A `Prefix` entry on a proper prefix of `bytes` decides every source
/// that starts with `bytes`: the first such entry fires on the byte that
/// follows its own bytes, and that byte and the rest of `bytes` stay in
/// the source. So an entry on `bytes` itself is selected by no source.
pub proof fn lemma_shadowed<E>(t: TrieView, bytes: Seq<u8>, j: int, rest: Seq<Result<u8, E>>)
    requires
        0 <= j < bytes.len(),
        t.entries.contains_key((bytes.take(j), MatchKind::Prefix)),
        unshadowed(t, bytes.take(j)),
    ensures
        select(t, all_ok::<E>(bytes) + rest) == Ok::<SelectionView, MatchError<E>>(
            SelectionView {
                action: t.entries[(bytes.take(j), MatchKind::Prefix)],
                fired: Fired::OnContinue,
                consumed: j as nat,
                bound: None,
            },
        ),
        pulled(t, Seq::empty(), all_ok::<E>(bytes) + rest) == j + 1,
        taken(t, Seq::empty(), all_ok::<E>(bytes) + rest) == j,
{
    let tail = all_ok::<E>(bytes.skip(j + 1)) + rest;
    assert(all_ok::<E>(bytes) + rest =~= all_ok::<E>(bytes.take(j)).push(Ok(bytes[j])) + tail);
    lemma_prefix_priority(t, bytes.take(j), bytes[j], tail);
}

/// Where the source ends right after the bytes of an unshadowed `Prefix`
/// rule, no byte follows for the rule to fire on: the `Exact` entry on
/// those bytes is selected if there is one, else the fallback.
pub proof fn lemma_prefix_at_end<E>(t: TrieView, bytes: Seq<u8>)
    requires
        t.entries.contains_key((bytes, MatchKind::Prefix)),
        unshadowed(t, bytes),
    ensures
        select(t, all_ok::<E>(bytes)) == Ok::<SelectionView, MatchError<E>>(at_end(t, bytes)),
{
    let rest = Seq::<Result<u8, E>>::empty();
    assert(all_ok::<E>(bytes) + rest =~= all_ok::<E>(bytes));
    lemma_reach(t, (bytes, MatchKind::Prefix), rest);
}

/// A failure as the first element of the source is the result of the
/// match, whatever the rules are.
pub proof fn lemma_error_precedence<E>(t: TrieView, failure: E, rest: Seq<Result<u8, E>>)
    ensures
        select(t, seq![Err::<u8, E>(failure)] + rest) == Err::<SelectionView, MatchError<E>>(
            MatchError::SourceFailure(failure),
        ),
{
    let input = seq![Err::<u8, E>(failure)] + rest;
    assert(input[0] == Err::<u8, E>(failure));
}

/// A match ends in a failure only if the source yields one: a source
/// whose elements are all bytes always gets a selection.
pub proof fn lemma_bytes_always_select<E>(t: TrieView, path: Seq<u8>, bytes: Seq<u8>)
    ensures
        walk(t, path, all_ok::<E>(bytes)) is Ok,
    decreases bytes.len(),
{
    let input = all_ok::<E>(bytes);
    if bytes.len() > 0 {
        assert(input[0] == Ok::<u8, E>(bytes[0]));
        assert(input.drop_first() =~= all_ok::<E>(bytes.drop_first()));
        lemma_bytes_always_select::<E>(t, path.push(bytes[0]), bytes.drop_first());
    }
}

/// A walk never goes deeper than the longest entry, so it pulls at most
/// one element more than that entry has bytes.
pub proof fn lemma_pulled_bounded<E>(
    t: TrieView,
    path: Seq<u8>,
    rest: Seq<Result<u8, E>>,
    limit: nat,
)
    requires
        within(t, limit),
        path.len() <= limit,
    ensures
        path.len() + pulled(t, path, rest) <= limit + 1,
    decreases rest.len(),
{
    if rest.len() > 0 {
        if step_spec(t, path, Some(rest[0])) is None {
            let next = path.push(rest[0]->Ok_0);
            assert(live(t.entries, next));
            let key = choose|key: Key| #[trigger]
                t.entries.contains_key(key) && next.is_prefix_of(key.0);
            assert(next.len() <= key.0.len());
            lemma_pulled_bounded(t, next, rest.drop_first(), limit);
        }
    }
}

/// The result of a walk depends on the elements that it pulls alone:
/// whatever stands behind them may be cut off.
pub proof fn lemma_walk_reads_pulled<E>(t: TrieView, path: Seq<u8>, rest: Seq<Result<u8, E>>, n: int)
    requires
        pulled(t, path, rest) < n <= rest.len(),
    ensures
        walk(t, path, rest.take(n)) == walk(t, path, rest),
        pulled(t, path, rest.take(n)) == pulled(t, path, rest),
    decreases rest.len(),
{
    let cut = rest.take(n);
    assert(cut[0] == rest[0]);
    if step_spec(t, path, Some(rest[0])) is None {
        assert(cut.drop_first() =~= rest.drop_first().take(n - 1));
        lemma_walk_reads_pulled(t, path.push(rest[0]->Ok_0), rest.drop_first(), n - 1);
    }
}

/// Matching ends on every source, however long: the result is decided by
/// the first `limit + 2` elements at most, where no entry has more than
/// `limit` bytes.
pub proof fn lemma_match_terminates<E>(t: TrieView, input: Seq<Result<u8, E>>, limit: nat)
    requires
        within(t, limit),
    ensures
        pulled(t, Seq::empty(), input) <= limit + 1,
        input.len() >= limit + 2 ==> select(t, input.take(limit as int + 2)) == select(t, input),
{
    lemma_pulled_bounded(t, Seq::empty(), input, limit);
    if input.len() >= limit + 2 {
        lemma_walk_reads_pulled(t, Seq::empty(), input, limit as int + 2);
    }
}

/// The order in which distinct entries are inserted changes nothing: two
/// lists of the same entries stand for the same map, and so match alike.
pub proof fn lemma_order_independent(a: Seq<EntryView>, b: Seq<EntryView>)
    requires
        distinct_entries(a),
        distinct_entries(b),
        forall|e: EntryView| a.contains(e) <==> b.contains(e),
    ensures
        entries_map(a) == entries_map(b),
{
    lemma_entries_map(a);
    lemma_entries_map(b);
    assert forall|k: Key| entries_map(a).contains_key(k) implies entries_map(b).contains_key(k)
        && entries_map(b)[k] == entries_map(a)[k] by {
        let i = choose|i: int| 0 <= i < a.len() && key_of(#[trigger] a[i]) == k;
        assert(a.contains(a[i]));
        let j = choose|j: int| 0 <= j < b.len() && b[j] == a[i];
        assert(key_of(b[j]) == k);
    }
    assert forall|k: Key| entries_map(b).contains_key(k) implies entries_map(a).contains_key(k) by {
        let j = choose|j: int| 0 <= j < b.len() && key_of(#[trigger] b[j]) == k;
        assert(b.contains(b[j]));
        let i = choose|i: int| 0 <= i < a.len() && a[i] == b[j];
        assert(key_of(a[i]) == k);
    }
    assert(entries_map(a) =~= entries_map(b));
}

/// A leaf with the index of the pattern that it came from.
pub type Tagged = (Leaf, nat);

/// Every leaf of a list of patterns, in order, each with the index of its
/// pattern.
pub open spec fn all_leaves(patterns: Seq<Pattern>) -> Seq<Tagged>
    decreases patterns.len(),
{
    if patterns.len() == 0 {
        Seq::empty()
    } else {
        all_leaves(patterns.drop_last()) + pattern_leaves(patterns.last()).map_values(
            |leaf: Leaf| (leaf, (patterns.len() - 1) as nat),
        )
    }
}

/// The leaves make a rule set: none has a shape that is not accepted, at
/// most one is a fallback, and no two entries share bytes and kind.
pub open spec fn addable(leaves: Seq<Tagged>) -> bool {
    &&& forall|k: int| 0 <= k < leaves.len() ==> !((#[trigger] leaves[k]).0 is Unsupported)
    &&& forall|i: int, j: int|
        0 <= i < j < leaves.len() ==> !((#[trigger] leaves[i]).0 is Fallback && (
        #[trigger] leaves[j]).0 is Fallback)
    &&& forall|i: int, j: int|
        0 <= i < j < leaves.len() ==> !((#[trigger] leaves[i]).0 is Entry && (
        #[trigger] leaves[j]).0 == leaves[i].0)
}

/// The rule set after these leaves, each added with its own index, or the
/// first error.
pub open spec fn add_tagged(rules: RuleSetView, leaves: Seq<Tagged>) -> Result<
    RuleSetView,
    BuildError,
>
    decreases leaves.len(),
{
    if leaves.len() == 0 {
        Ok(rules)
    } else {
        match add_tagged(rules, leaves.drop_last()) {
            Ok(mid) => mid.add_leaf(leaves.last().0, leaves.last().1),
            Err(e) => Err(e),
        }
    }
}

/// Adding `a + b` is adding `a`, then `b`.
pub proof fn lemma_add_tagged_concat(rules: RuleSetView, a: Seq<Tagged>, b: Seq<Tagged>)
    ensures
        add_tagged(rules, a + b) == match add_tagged(rules, a) {
            Ok(mid) => add_tagged(mid, b),
            Err(e) => Err(e),
        },
    decreases b.len(),
{
    if b.len() == 0 {
        assert(a + b =~= a);
    } else {
        assert((a + b).drop_last() =~= a + b.drop_last());
        assert((a + b).last() == b.last());
        lemma_add_tagged_concat(rules, a, b.drop_last());
    }
}

/// Adding the leaves of one pattern is adding them with that pattern's
/// index.
pub proof fn lemma_add_tagged_one(rules: RuleSetView, leaves: Seq<Leaf>, action: nat)
    ensures
        add_tagged(rules, leaves.map_values(|leaf: Leaf| (leaf, action))) == rules.add_leaves(
            leaves,
            action,
        ),
    decreases leaves.len(),
{
    let tagged = leaves.map_values(|leaf: Leaf| (leaf, action));
    if leaves.len() > 0 {
        assert(tagged.drop_last() =~= leaves.drop_last().map_values(|leaf: Leaf| (leaf, action)));
        lemma_add_tagged_one(rules, leaves.drop_last(), action);
    }
}

/// Normalization adds every leaf of every pattern, in order.
pub proof fn lemma_normalize_adds_all(patterns: Seq<Pattern>)
    ensures
        normalize_spec(patterns) == add_tagged(RuleSetView::empty(), all_leaves(patterns)),
    decreases patterns.len(),
{
    if patterns.len() > 0 {
        let front = patterns.drop_last();
        let action = (patterns.len() - 1) as nat;
        let leaves = pattern_leaves(patterns.last());
        lemma_normalize_adds_all(front);
        lemma_add_tagged_concat(
            RuleSetView::empty(),
            all_leaves(front),
            leaves.map_values(|leaf: Leaf| (leaf, action)),
        );
        if let Ok(mid) = normalize_spec(front) {
            lemma_add_tagged_one(mid, leaves, action);
        }
    }
}

/// Leaves can be added to the empty rule set exactly where they are
/// `addable`. The rule set then holds the entries among the leaves, and a
/// fallback exactly where a leaf is one.
pub proof fn lemma_add_tagged_ok(leaves: Seq<Tagged>)
    ensures
        add_tagged(RuleSetView::empty(), leaves) is Ok <==> addable(leaves),
        add_tagged(RuleSetView::empty(), leaves) matches Ok(rules) ==> {
            &&& forall|bytes: Seq<u8>, kind: MatchKind| #[trigger]
                rules.has(bytes, kind) <==> exists|k: int|
                    0 <= k < leaves.len() && (#[trigger] leaves[k]).0 == Leaf::Entry(bytes, kind)
            &&& rules.fallback is Some <==> exists|k: int|
                0 <= k < leaves.len() && (#[trigger] leaves[k]).0 is Fallback
        },
    decreases leaves.len(),
{
    let start = RuleSetView::empty();
    if leaves.len() == 0 {
        assert forall|bytes: Seq<u8>, kind: MatchKind| !#[trigger] start.has(bytes, kind) by {}
    } else {
        let front = leaves.drop_last();
        let last = leaves.last();
        let n = front.len() as int;
        lemma_add_tagged_ok(front);
        assert(forall|k: int| 0 <= k < n ==> front[k] == leaves[k]);
        match add_tagged(start, front) {
            Err(_) => {
                assert(!addable(front));
                if addable(leaves) {
                    assert forall|k: int| 0 <= k < front.len() implies !((
                    #[trigger] front[k]).0 is Unsupported) by {
                        assert(front[k] == leaves[k]);
                    }
                    assert forall|i: int, j: int| 0 <= i < j < front.len() implies !((
                    #[trigger] front[i]).0 is Fallback && (#[trigger] front[j]).0 is Fallback) by {
                        assert(front[i] == leaves[i] && front[j] == leaves[j]);
                    }
                    assert forall|i: int, j: int| 0 <= i < j < front.len() implies !((
                    #[trigger] front[i]).0 is Entry && (#[trigger] front[j]).0 == front[i].0) by {
                        assert(front[i] == leaves[i] && front[j] == leaves[j]);
                    }
                    assert(addable(front));
                }
            },
            Ok(mid) => {
                assert(addable(front));
                assert(leaves[n] == last);
                match mid.add_leaf(last.0, last.1) {
                    Err(_) => {
                        match last.0 {
                            Leaf::Unsupported => {},
                            Leaf::Fallback(_) => {
                                let k = choose|k: int|
                                    0 <= k < front.len() && (#[trigger] front[k]).0 is Fallback;
                                assert(leaves[k].0 is Fallback && leaves[n].0 is Fallback);
                            },
                            Leaf::Entry(bytes, kind) => {
                                assert(mid.has(bytes, kind));
                                let k = choose|k: int|
                                    0 <= k < front.len() && (#[trigger] front[k]).0 == Leaf::Entry(
                                        bytes,
                                        kind,
                                    );
                                assert(leaves[k].0 is Entry && leaves[n].0 == leaves[k].0);
                            },
                        }
                    },
                    Ok(rules) => {
                        assert forall|i: int, j: int| 0 <= i < j < leaves.len() implies !((
                        #[trigger] leaves[i]).0 is Fallback && (#[trigger] leaves[j]).0 is Fallback) by {
                            if j < n {
                                assert(front[i] == leaves[i] && front[j] == leaves[j]);
                            } else if leaves[i].0 is Fallback {
                                assert(front[i].0 is Fallback);
                            }
                        }
                        assert forall|i: int, j: int| 0 <= i < j < leaves.len() implies !((
                        #[trigger] leaves[i]).0 is Entry && (#[trigger] leaves[j]).0
                            == leaves[i].0) by {
                            if j < n {
                                assert(front[i] == leaves[i] && front[j] == leaves[j]);
                            } else if leaves[i].0 is Entry && last.0 == leaves[i].0 {
                                assert(front[i].0 == leaves[i].0);
                                if let Leaf::Entry(bytes, kind) = last.0 {
                                    assert(mid.has(bytes, kind));
                                }
                            }
                        }
                        assert forall|k: int| 0 <= k < leaves.len() implies !((
                        #[trigger] leaves[k]).0 is Unsupported) by {
                            if k < n {
                                assert(front[k] == leaves[k]);
                            }
                        }
                        assert forall|bytes: Seq<u8>, kind: MatchKind| #[trigger]
                            rules.has(bytes, kind) <==> exists|k: int|
                                0 <= k < leaves.len() && (#[trigger] leaves[k]).0 == Leaf::Entry(
                                    bytes,
                                    kind,
                                ) by {
                            if rules.has(bytes, kind) {
                                let i = choose|i: int|
                                    0 <= i < rules.entries.len() && (#[trigger] rules.entries[i]).bytes
                                        == bytes && rules.entries[i].kind == kind;
                                if i < mid.entries.len() {
                                    assert(mid.entries[i] == rules.entries[i]);
                                    assert(mid.has(bytes, kind));
                                    let k = choose|k: int|
                                        0 <= k < front.len() && (#[trigger] front[k]).0
                                            == Leaf::Entry(bytes, kind);
                                    assert(leaves[k].0 == Leaf::Entry(bytes, kind));
                                } else {
                                    assert(leaves[n].0 == Leaf::Entry(bytes, kind));
                                }
                            }
                            if exists|k: int|
                                0 <= k < leaves.len() && (#[trigger] leaves[k]).0 == Leaf::Entry(
                                    bytes,
                                    kind,
                                ) {
                                let k = choose|k: int|
                                    0 <= k < leaves.len() && (#[trigger] leaves[k]).0
                                        == Leaf::Entry(bytes, kind);
                                if k < n {
                                    assert(front[k].0 == Leaf::Entry(bytes, kind));
                                    assert(mid.has(bytes, kind));
                                    let i = choose|i: int|
                                        0 <= i < mid.entries.len() && (
                                        #[trigger] mid.entries[i]).bytes == bytes
                                            && mid.entries[i].kind == kind;
                                    assert(rules.entries[i] == mid.entries[i]);
                                } else {
                                    let i = rules.entries.len() - 1;
                                    assert(rules.entries[i].bytes == bytes);
                                }
                                assert(rules.has(bytes, kind));
                            }
                        }
                        if rules.fallback is Some {
                            if mid.fallback is Some {
                                let k = choose|k: int|
                                    0 <= k < front.len() && (#[trigger] front[k]).0 is Fallback;
                                assert(leaves[k].0 is Fallback);
                            } else {
                                assert(leaves[n].0 is Fallback);
                            }
                        }
                        if exists|k: int| 0 <= k < leaves.len() && (#[trigger] leaves[k]).0 is Fallback {
                            let k = choose|k: int|
                                0 <= k < leaves.len() && (#[trigger] leaves[k]).0 is Fallback;
                            if k < n {
                                assert(front[k].0 is Fallback);
                            }
                        }
                    },
                }
            },
        }
    }
}

/// The entry that an `Entry` leaf with its index stands for.
pub open spec fn entry_of(leaf: Tagged) -> EntryView {
    EntryView { bytes: leaf.0->Entry_0, kind: leaf.0->Entry_1, action: leaf.1 }
}

/// The fallback that a `Fallback` leaf with its index stands for.
pub open spec fn fallback_of(leaf: Tagged) -> FallbackView {
    FallbackView { binder: leaf.0->Fallback_0, action: leaf.1 }
}

/// The rule set that leaves add up to holds every entry among them with
/// the index of its pattern, and the fallback among them with its index.
pub proof fn lemma_add_tagged_actions(leaves: Seq<Tagged>)
    ensures
        add_tagged(RuleSetView::empty(), leaves) matches Ok(rules) ==> {
            &&& forall|k: int|
                0 <= k < leaves.len() && (#[trigger] leaves[k]).0 is Entry ==> exists|i: int|
                    0 <= i < rules.entries.len() && #[trigger] rules.entries[i] == entry_of(
                        leaves[k],
                    )
            &&& forall|k: int|
                0 <= k < leaves.len() && (#[trigger] leaves[k]).0 is Fallback ==> rules.fallback
                    == Some(fallback_of(leaves[k]))
        },
    decreases leaves.len(),
{
    if leaves.len() > 0 {
        let front = leaves.drop_last();
        let last = leaves.last();
        let n = front.len() as int;
        lemma_add_tagged_actions(front);
        lemma_add_tagged_ok(front);
        if let Ok(mid) = add_tagged(RuleSetView::empty(), front) {
            if let Ok(rules) = mid.add_leaf(last.0, last.1) {
                assert forall|k: int|
                    0 <= k < leaves.len() && (#[trigger] leaves[k]).0 is Entry implies exists|
                    i: int,
                |
                    0 <= i < rules.entries.len() && #[trigger] rules.entries[i] == entry_of(
                        leaves[k],
                    ) by {
                    if k < n {
                        assert(front[k] == leaves[k]);
                        let i = choose|i: int|
                            0 <= i < mid.entries.len() && #[trigger] mid.entries[i] == entry_of(
                                front[k],
                            );
                        assert(rules.entries[i] == mid.entries[i]);
                    } else {
                        assert(rules.entries[rules.entries.len() - 1] == entry_of(last));
                    }
                }
                assert forall|k: int|
                    0 <= k < leaves.len() && (#[trigger] leaves[k]).0 is Fallback implies rules.fallback
                    == Some(fallback_of(leaves[k])) by {
                    if k < n {
                        assert(front[k] == leaves[k]);
                        assert(mid.fallback == Some(fallback_of(front[k])));
                        assert(mid.fallback is Some);
                    }
                }
            }
        }
    }
}

/// What compiling gives holds the rules as they were written: every
/// entry among the leaves, under the index of its rule, no other entry,
/// and the fallback among the leaves under the index of its rule.
pub proof fn lemma_compiled_rules(patterns: Seq<Pattern>)
    ensures
        compile_spec(patterns) matches Ok(t) ==> {
            let leaves = all_leaves(patterns);
            &&& forall|k: int|
                0 <= k < leaves.len() && (#[trigger] leaves[k]).0 is Entry ==> t.entries.contains_key(
                    key_of(entry_of(leaves[k])),
                ) && t.entries[key_of(entry_of(leaves[k]))] == leaves[k].1
            &&& forall|key: Key| #[trigger]
                t.entries.contains_key(key) ==> exists|k: int|
                    0 <= k < leaves.len() && (#[trigger] leaves[k]).0 == Leaf::Entry(key.0, key.1)
            &&& forall|k: int|
                0 <= k < leaves.len() && (#[trigger] leaves[k]).0 is Fallback ==> t.fallback == Some(
                    fallback_of(leaves[k]),
                )
        },
{
    let leaves = all_leaves(patterns);
    lemma_normalize_adds_all(patterns);
    lemma_add_tagged_ok(leaves);
    lemma_add_tagged_actions(leaves);
    lemma_normalize_distinct(patterns);
    if let Ok(rules) = normalize_spec(patterns) {
        lemma_entries_map(rules.entries);
        if let Ok(t) = compile_spec(patterns) {
            assert forall|k: int|
                0 <= k < leaves.len() && (#[trigger] leaves[k]).0 is Entry implies t.entries.contains_key(
                key_of(entry_of(leaves[k])),
            ) && t.entries[key_of(entry_of(leaves[k]))] == leaves[k].1 by {
                let i = choose|i: int|
                    0 <= i < rules.entries.len() && #[trigger] rules.entries[i] == entry_of(
                        leaves[k],
                    );
                assert(key_of(rules.entries[i]) == key_of(entry_of(leaves[k])));
            }
            assert forall|key: Key| #[trigger] t.entries.contains_key(key) implies exists|k: int|
                0 <= k < leaves.len() && (#[trigger] leaves[k]).0 == Leaf::Entry(key.0, key.1) by {
                let j = choose|j: int|
                    0 <= j < rules.entries.len() && key_of(#[trigger] rules.entries[j]) == key;
                assert(rules.has(key.0, key.1));
            }
        }
    }
}

/// Patterns normalize to a rule set exactly where their leaves are
/// `addable`; they compile exactly where, besides, one leaf is a fallback.
pub proof fn lemma_construction_succeeds(patterns: Seq<Pattern>)
    ensures
        normalize_spec(patterns) is Ok <==> addable(all_leaves(patterns)),
        compile_spec(patterns) is Ok <==> addable(all_leaves(patterns)) && exists|k: int|
            0 <= k < all_leaves(patterns).len() && (#[trigger] all_leaves(patterns)[k]).0 is Fallback,
        addable(all_leaves(patterns)) && !(exists|k: int|
            0 <= k < all_leaves(patterns).len() && (#[trigger] all_leaves(patterns)[k]).0 is Fallback)
            ==> compile_spec(patterns) == Err::<TrieView, BuildError>(BuildError::IncompleteMatch),
{
    lemma_normalize_adds_all(patterns);
    lemma_add_tagged_ok(all_leaves(patterns));
}

} // verus!
