//! The byte-indexed trie: an arena of nodes in which patterns that share a
//! prefix share the nodes of that prefix.

use crate::rules::{BuildError, FallbackRule, FallbackView, MatchKind};
use vstd::prelude::*;

verus! {

/// The key of an entry: its bytes and its kind.
pub type Key = (Seq<u8>, MatchKind);

/// One node of the trie. Children are held as `(byte, node id)` pairs.
#[derive(Debug)]
pub struct Node {
    /// The children, one pair for each byte that leads on.
    pub children: Vec<(u8, usize)>,
    /// The action that fires when the source ends at this node.
    pub on_end: Option<usize>,
    /// The action that fires when this node is reached and a byte follows.
    pub on_continue: Option<usize>,
    /// The default for whatever the fields above leave open.
    pub fallback: Option<FallbackRule>,
}

/// What a trie stands for: a finite map from `(bytes, kind)` to the action
/// of that entry, and the fallback rule once it is installed.
pub struct TrieView {
    pub entries: Map<Key, nat>,
    pub fallback: Option<FallbackView>,
}

/// The trie. Node 0 is the root; every other node is the child of a node
/// with a smaller id.
pub struct Trie {
    nodes: Vec<Node>,
    paths: Ghost<Seq<Seq<u8>>>,
    parents: Ghost<Seq<int>>,
    entries: Ghost<Map<Key, nat>>,
}

/// The child that a list of `(byte, node id)` pairs gives for `byte`: the
/// first pair with that byte.
pub open spec fn child_of(children: Seq<(u8, usize)>, byte: u8) -> Option<usize>
    decreases children.len(),
{
    if children.len() == 0 {
        None
    } else if children[0].0 == byte {
        Some(children[0].1)
    } else {
        child_of(children.drop_first(), byte)
    }
}

/// No two pairs of the list share a byte.
pub open spec fn distinct_bytes(children: Seq<(u8, usize)>) -> bool {
    forall|i: int, j: int|
        0 <= i < j < children.len() ==> (#[trigger] children[i]).0 != (#[trigger] children[j]).0
}

/// The content of an optional fallback rule.
pub open spec fn fallback_view(f: Option<FallbackRule>) -> Option<FallbackView> {
    match f {
        Some(rule) => Some(rule@),
        None => None,
    }
}

/// Whether an action slot of a node agrees with the entry map at `key`.
pub open spec fn slot_agrees(slot: Option<usize>, entries: Map<Key, nat>, key: Key) -> bool {
    match slot {
        Some(action) => entries.contains_key(key) && entries[key] == action as nat,
        None => !entries.contains_key(key),
    }
}

/// Some entry's bytes start with `path`.
pub open spec fn live(entries: Map<Key, nat>, path: Seq<u8>) -> bool {
    exists|key: Key| #[trigger] entries.contains_key(key) && path.is_prefix_of(key.0)
}

/// How many of the first `upto` non-empty prefixes of `bytes` no entry's
/// bytes start with.
pub open spec fn missing_upto(entries: Map<Key, nat>, bytes: Seq<u8>, upto: int) -> nat
    decreases upto,
{
    if upto <= 0 {
        0
    } else {
        missing_upto(entries, bytes, upto - 1) + if live(entries, bytes.take(upto)) {
            0nat
        } else {
            1nat
        }
    }
}

impl TrieView {
    /// Some entry's bytes start with `path`: the trie has a node for it.
    pub open spec fn extends(self, path: Seq<u8>) -> bool {
        live(self.entries, path)
    }

    /// How many non-empty prefixes of `bytes` the trie has no node for.
    pub open spec fn missing(self, bytes: Seq<u8>) -> nat {
        missing_upto(self.entries, bytes, bytes.len() as int)
    }
}

/// A pair appended to a list of children is found only where the list
/// had nothing for its byte.
pub proof fn lemma_child_of_push(children: Seq<(u8, usize)>, pair: (u8, usize), byte: u8)
    ensures
        child_of(children.push(pair), byte) == match child_of(children, byte) {
            Some(c) => Some(c),
            None => if pair.0 == byte {
                Some(pair.1)
            } else {
                None
            },
        },
    decreases children.len(),
{
    let pushed = children.push(pair);
    if children.len() == 0 {
        assert(pushed.drop_first() =~= Seq::<(u8, usize)>::empty());
        assert(child_of(pushed.drop_first(), byte) is None);
    } else {
        assert(pushed.drop_first() =~= children.drop_first().push(pair));
        lemma_child_of_push(children.drop_first(), pair, byte);
    }
}

/// A list of children has nothing for a byte exactly where no pair has
/// that byte; what it has is the node of a pair with that byte.
pub proof fn lemma_child_of_pairs(children: Seq<(u8, usize)>, byte: u8)
    ensures
        child_of(children, byte) is None <==> forall|k: int|
            0 <= k < children.len() ==> (#[trigger] children[k]).0 != byte,
        child_of(children, byte) matches Some(c) ==> exists|k: int|
            0 <= k < children.len() && #[trigger] children[k] == (byte, c),
    decreases children.len(),
{
    if children.len() > 0 {
        let rest = children.drop_first();
        lemma_child_of_pairs(rest, byte);
        assert(forall|k: int| 0 <= k < rest.len() ==> rest[k] == children[k + 1]);
        if children[0].0 != byte {
            if child_of(children, byte) is None {
                assert forall|k: int| 0 <= k < children.len() implies (#[trigger] children[k]).0
                    != byte by {
                    if k > 0 {
                        assert(rest[k - 1] == children[k]);
                    }
                }
            } else {
                let c = child_of(rest, byte)->0;
                let k = choose|k: int| 0 <= k < rest.len() && #[trigger] rest[k] == (byte, c);
                assert(children[k + 1] == (byte, c));
            }
        }
    }
}

/// Where no two pairs of a list share a byte, every pair is found under
/// its byte.
pub proof fn lemma_child_of_distinct(children: Seq<(u8, usize)>, k: int)
    requires
        0 <= k < children.len(),
        distinct_bytes(children),
    ensures
        child_of(children, children[k].0) == Some(children[k].1),
    decreases children.len(),
{
    if k > 0 {
        let rest = children.drop_first();
        assert(children[0].0 != children[k].0);
        assert(rest[k - 1] == children[k]);
        assert forall|i: int, j: int| 0 <= i < j < rest.len() implies (#[trigger] rest[i]).0 != (
        #[trigger] rest[j]).0 by {
            assert(rest[i] == children[i + 1] && rest[j] == children[j + 1]);
        }
        lemma_child_of_distinct(rest, k - 1);
    }
}

impl Node {
    /// A node without children and without actions.
    pub fn new(fallback: Option<FallbackRule>) -> (node: Node)
        ensures
            node.children@ == Seq::<(u8, usize)>::empty(),
            node.on_end is None,
            node.on_continue is None,
            node.fallback == fallback,
    {
        Node { children: Vec::new(), on_end: None, on_continue: None, fallback }
    }

    /// The id of the child for `byte`, if there is one.
    pub fn find_arm(&self, byte: u8) -> (r: Option<usize>)
        ensures
            r == child_of(self.children@, byte),
    {
        let mut i: usize = 0;
        assert(self.children@.skip(0) =~= self.children@);
        while i < self.children.len()
            invariant
                i <= self.children.len(),
                child_of(self.children@, byte) == child_of(self.children@.skip(i as int), byte),
            decreases self.children.len() - i,
        {
            let pair = self.children[i];
            proof {
                let rest = self.children@.skip(i as int);
                assert(rest[0] == pair);
                assert(rest.drop_first() =~= self.children@.skip(i + 1));
            }
            if pair.0 == byte {
                return Some(pair.1);
            }
            i += 1;
        }
        assert(self.children@.skip(i as int) =~= Seq::<(u8, usize)>::empty());
        None
    }
}

/// The invariant that ties the arena to the entry map. `paths[n]` is the
/// byte string that leads from the root to node `n`, `parents[n]` the node
/// above it. While an insertion is under way, the nodes on the way to
/// `pending` need not lead to an entry yet.
spec fn arena_inv(
    nodes: Seq<Node>,
    paths: Seq<Seq<u8>>,
    parents: Seq<int>,
    entries: Map<Key, nat>,
    pending: Option<Seq<u8>>,
) -> bool {
    &&& nodes.len() >= 1
    &&& paths.len() == nodes.len()
    &&& parents.len() == nodes.len()
    &&& paths[0].len() == 0
    &&& forall|n: int| 0 <= n < nodes.len() ==> distinct_bytes((#[trigger] nodes[n]).children@)
    &&& forall|n: int, b: u8|
        0 <= n < nodes.len() ==> (#[trigger] child_of(nodes[n].children@, b) matches Some(c) ==> n
            < c < nodes.len() && paths[c as int] == paths[n].push(b))
    &&& forall|m: int|
        1 <= m < nodes.len() ==> {
            &&& 0 <= #[trigger] parents[m] < m
            &&& paths[m].len() > 0
            &&& paths[parents[m]] == paths[m].drop_last()
            &&& child_of(nodes[parents[m]].children@, paths[m].last()) == Some(m as usize)
        }
    &&& forall|i: int, j: int|
        0 <= i < j < nodes.len() ==> #[trigger] paths[i] != #[trigger] paths[j]
    &&& forall|n: int|
        0 <= n < nodes.len() ==> slot_agrees(
            (#[trigger] nodes[n]).on_end,
            entries,
            (paths[n], MatchKind::Exact),
        ) && slot_agrees(nodes[n].on_continue, entries, (paths[n], MatchKind::Prefix))
    &&& forall|key: Key| #[trigger]
        entries.contains_key(key) ==> exists|n: int|
            0 <= n < nodes.len() && #[trigger] paths[n] == key.0
    &&& forall|n: int|
        1 <= n < nodes.len() ==> live(entries, #[trigger] paths[n]) || (pending matches Some(q)
            && paths[n].is_prefix_of(q))
    &&& forall|n: int|
        0 <= n < nodes.len() ==> fallback_view((#[trigger] nodes[n]).fallback) == fallback_view(
            nodes[0].fallback,
        )
}

/// No node has the path that a missing child would have.
proof fn lemma_missing_child(
    nodes: Seq<Node>,
    paths: Seq<Seq<u8>>,
    parents: Seq<int>,
    entries: Map<Key, nat>,
    pending: Option<Seq<u8>>,
    cur: int,
    byte: u8,
)
    requires
        arena_inv(nodes, paths, parents, entries, pending),
        0 <= cur < nodes.len(),
        child_of(nodes[cur].children@, byte) is None,
    ensures
        forall|j: int| 0 <= j < nodes.len() ==> #[trigger] paths[j] != paths[cur].push(byte),
{
    assert forall|j: int| 0 <= j < nodes.len() implies #[trigger] paths[j] != paths[cur].push(
        byte,
    ) by {
        if paths[j] == paths[cur].push(byte) {
            assert(paths[j].len() > 0);
            assert(j >= 1);
            let p = parents[j];
            assert(paths[p] == paths[j].drop_last());
            assert(paths[cur].push(byte).drop_last() =~= paths[cur]);
            assert(paths[p] == paths[cur]);
            if p < cur {
                assert(paths[p] != paths[cur]);
            } else if cur < p {
                assert(paths[cur] != paths[p]);
            }
            assert(p == cur);
            assert(paths[j].last() == byte);
        }
    }
}

/// Hanging a fresh node under `cur` keeps the invariant, as long as the
/// new node lies on the way to `pending`.
proof fn lemma_grow(
    nodes: Seq<Node>,
    paths: Seq<Seq<u8>>,
    parents: Seq<int>,
    entries: Map<Key, nat>,
    pending: Seq<u8>,
    cur: int,
    byte: u8,
    fresh: usize,
    after: Seq<Node>,
)
    requires
        arena_inv(nodes, paths, parents, entries, Some(pending)),
        0 <= cur < nodes.len(),
        fresh == nodes.len(),
        child_of(nodes[cur].children@, byte) is None,
        paths[cur].push(byte).is_prefix_of(pending),
        after.len() == nodes.len() + 1,
        forall|n: int| 0 <= n < nodes.len() && n != cur ==> after[n] == nodes[n],
        after[cur].children@ == nodes[cur].children@.push((byte, fresh)),
        after[cur].on_end == nodes[cur].on_end,
        after[cur].on_continue == nodes[cur].on_continue,
        after[cur].fallback == nodes[cur].fallback,
        after[fresh as int].children@.len() == 0,
        after[fresh as int].on_end is None,
        after[fresh as int].on_continue is None,
        fallback_view(after[fresh as int].fallback) == fallback_view(nodes[0].fallback),
    ensures
        arena_inv(
            after,
            paths.push(paths[cur].push(byte)),
            parents.push(cur),
            entries,
            Some(pending),
        ),
{
    let paths2 = paths.push(paths[cur].push(byte));
    let parents2 = parents.push(cur);
    let len = nodes.len() as int;
    lemma_missing_child(nodes, paths, parents, entries, Some(pending), cur, byte);
    assert forall|n: int| 0 <= n < after.len() implies distinct_bytes(
        (#[trigger] after[n]).children@,
    ) by {
        if n == cur {
            lemma_child_of_pairs(nodes[cur].children@, byte);
            assert(distinct_bytes(nodes[cur].children@));
            let old_pairs = nodes[cur].children@;
            let pairs = after[cur].children@;
            assert forall|i: int, j: int| 0 <= i < j < pairs.len() implies (#[trigger] pairs[i]).0
                != (#[trigger] pairs[j]).0 by {
                assert(pairs[i] == old_pairs[i]);
                if j < old_pairs.len() {
                    assert(pairs[j] == old_pairs[j]);
                }
            }
        } else if n < len {
            assert(after[n] == nodes[n]);
            assert(distinct_bytes(nodes[n].children@));
        }
    }
    assert forall|n: int, b: u8| 0 <= n < after.len() implies (#[trigger] child_of(
        after[n].children@,
        b,
    ) matches Some(c) ==> n < c < after.len() && paths2[c as int] == paths2[n].push(b)) by {
        if n == cur {
            lemma_child_of_push(nodes[cur].children@, (byte, fresh), b);
            if child_of(nodes[cur].children@, b) is Some {
                assert(child_of(after[n].children@, b) == child_of(nodes[n].children@, b));
            }
        } else if n < len {
            assert(after[n] == nodes[n]);
        }
    }
    assert forall|m: int| 1 <= m < after.len() implies {
        &&& 0 <= #[trigger] parents2[m] < m
        &&& paths2[m].len() > 0
        &&& paths2[parents2[m]] == paths2[m].drop_last()
        &&& child_of(after[parents2[m]].children@, paths2[m].last()) == Some(m as usize)
    } by {
        if m == len {
            assert(paths2[m].drop_last() =~= paths[cur]);
            lemma_child_of_push(nodes[cur].children@, (byte, fresh), byte);
        } else {
            let p = parents[m];
            if p == cur {
                lemma_child_of_push(nodes[cur].children@, (byte, fresh), paths[m].last());
            } else {
                assert(after[p] == nodes[p]);
            }
        }
    }
    assert forall|i: int, j: int| 0 <= i < j < after.len() implies #[trigger] paths2[i]
        != #[trigger] paths2[j] by {
        if j == len {
            assert(paths[i] != paths[cur].push(byte));
        } else {
            assert(paths[i] != paths[j]);
        }
    }
    assert forall|n: int| 0 <= n < after.len() implies slot_agrees(
        (#[trigger] after[n]).on_end,
        entries,
        (paths2[n], MatchKind::Exact),
    ) && slot_agrees(after[n].on_continue, entries, (paths2[n], MatchKind::Prefix)) by {
        if n == len {
            let key1 = (paths2[n], MatchKind::Exact);
            let key2 = (paths2[n], MatchKind::Prefix);
            if entries.contains_key(key1) {
                let w = choose|w: int| 0 <= w < nodes.len() && #[trigger] paths[w] == key1.0;
                assert(paths[w] != paths[cur].push(byte));
            }
            if entries.contains_key(key2) {
                let w = choose|w: int| 0 <= w < nodes.len() && #[trigger] paths[w] == key2.0;
                assert(paths[w] != paths[cur].push(byte));
            }
        } else if n == cur {
            assert(slot_agrees(nodes[n].on_end, entries, (paths[n], MatchKind::Exact)));
        } else {
            assert(after[n] == nodes[n]);
            assert(slot_agrees(nodes[n].on_end, entries, (paths[n], MatchKind::Exact)));
        }
    }
    assert forall|key: Key| #[trigger] entries.contains_key(key) implies exists|n: int|
        0 <= n < after.len() && #[trigger] paths2[n] == key.0 by {
        let w = choose|w: int| 0 <= w < nodes.len() && #[trigger] paths[w] == key.0;
        assert(paths2[w] == key.0);
    }
    assert forall|n: int| 1 <= n < after.len() implies live(entries, #[trigger] paths2[n]) || (
    Some(pending) matches Some(q) && paths2[n].is_prefix_of(q)) by {
        if n < len {
            assert(paths2[n] == paths[n]);
        }
    }
    assert forall|n: int| 0 <= n < after.len() implies fallback_view(
        (#[trigger] after[n]).fallback,
    ) == fallback_view(after[0].fallback) by {
        if n < len && n != cur {
            assert(after[n] == nodes[n]);
        }
        if 0 != cur {
            assert(after[0] == nodes[0]);
        }
        if n < len {
            assert(fallback_view(nodes[n].fallback) == fallback_view(nodes[0].fallback));
        }
    }
}

/// Setting the free slot of the node at the end of `bytes` adds the entry
/// to the map and completes the insertion.
proof fn lemma_set_slot(
    nodes: Seq<Node>,
    paths: Seq<Seq<u8>>,
    parents: Seq<int>,
    entries: Map<Key, nat>,
    bytes: Seq<u8>,
    kind: MatchKind,
    action: usize,
    cur: int,
    after: Seq<Node>,
)
    requires
        arena_inv(nodes, paths, parents, entries, Some(bytes)),
        0 <= cur < nodes.len(),
        paths[cur] == bytes,
        !entries.contains_key((bytes, kind)),
        after.len() == nodes.len(),
        forall|n: int| 0 <= n < nodes.len() && n != cur ==> after[n] == nodes[n],
        after[cur].children == nodes[cur].children,
        after[cur].fallback == nodes[cur].fallback,
        kind == MatchKind::Exact ==> after[cur].on_end == Some(action) && after[cur].on_continue
            == nodes[cur].on_continue,
        kind == MatchKind::Prefix ==> after[cur].on_continue == Some(action) && after[cur].on_end
            == nodes[cur].on_end,
    ensures
        arena_inv(after, paths, parents, entries.insert((bytes, kind), action as nat), None),
{
    let key = (bytes, kind);
    let entries2 = entries.insert(key, action as nat);
    assert forall|n: int| 0 <= n < after.len() implies distinct_bytes(
        (#[trigger] after[n]).children@,
    ) by {
        if n != cur {
            assert(after[n] == nodes[n]);
        }
        assert(distinct_bytes(nodes[n].children@));
    }
    assert forall|n: int, b: u8| 0 <= n < after.len() implies (#[trigger] child_of(
        after[n].children@,
        b,
    ) matches Some(c) ==> n < c < after.len() && paths[c as int] == paths[n].push(b)) by {
        if n != cur {
            assert(after[n] == nodes[n]);
        }
        assert(child_of(after[n].children@, b) == child_of(nodes[n].children@, b));
    }
    assert forall|m: int| 1 <= m < after.len() implies {
        &&& 0 <= #[trigger] parents[m] < m
        &&& paths[m].len() > 0
        &&& paths[parents[m]] == paths[m].drop_last()
        &&& child_of(after[parents[m]].children@, paths[m].last()) == Some(m as usize)
    } by {
        let p = parents[m];
        if p != cur {
            assert(after[p] == nodes[p]);
        }
    }
    assert forall|n: int| 0 <= n < after.len() implies slot_agrees(
        (#[trigger] after[n]).on_end,
        entries2,
        (paths[n], MatchKind::Exact),
    ) && slot_agrees(after[n].on_continue, entries2, (paths[n], MatchKind::Prefix)) by {
        assert(slot_agrees(nodes[n].on_end, entries, (paths[n], MatchKind::Exact)));
        assert(slot_agrees(nodes[n].on_continue, entries, (paths[n], MatchKind::Prefix)));
        if n != cur {
            assert(after[n] == nodes[n]);
            if n < cur {
                assert(paths[n] != paths[cur]);
            } else {
                assert(paths[cur] != paths[n]);
            }
        }
    }
    assert forall|k: Key| #[trigger] entries2.contains_key(k) implies exists|n: int|
        0 <= n < after.len() && #[trigger] paths[n] == k.0 by {
        if k == key {
            assert(paths[cur] == k.0);
        } else {
            assert(entries.contains_key(k));
        }
    }
    assert forall|n: int| 1 <= n < after.len() implies live(entries2, #[trigger] paths[n]) by {
        if live(entries, paths[n]) {
            let k = choose|k: Key| #[trigger] entries.contains_key(k) && paths[n].is_prefix_of(k.0);
            assert(entries2.contains_key(k));
        } else {
            assert(paths[n].is_prefix_of(bytes));
            assert(entries2.contains_key(key));
        }
    }
    assert forall|n: int| 0 <= n < after.len() implies fallback_view(
        (#[trigger] after[n]).fallback,
    ) == fallback_view(after[0].fallback) by {
        if n != cur {
            assert(after[n] == nodes[n]);
        }
        if 0 != cur {
            assert(after[0] == nodes[0]);
        }
        assert(fallback_view(nodes[n].fallback) == fallback_view(nodes[0].fallback));
    }
}

/// Every prefix of a node's path is the path of a node.
proof fn lemma_prefix_node(
    nodes: Seq<Node>,
    paths: Seq<Seq<u8>>,
    parents: Seq<int>,
    entries: Map<Key, nat>,
    pending: Option<Seq<u8>>,
    m: int,
    j: int,
) -> (n: int)
    requires
        arena_inv(nodes, paths, parents, entries, pending),
        0 <= m < nodes.len(),
        0 <= j <= paths[m].len(),
    ensures
        0 <= n < nodes.len(),
        paths[n] == paths[m].take(j),
    decreases m,
{
    if j == paths[m].len() {
        assert(paths[m].take(j) =~= paths[m]);
        m
    } else {
        let p = parents[m];
        let n = lemma_prefix_node(nodes, paths, parents, entries, pending, p, j);
        assert(paths[m].drop_last().take(j) =~= paths[m].take(j));
        n
    }
}

/// A node has a child for `byte` exactly where some entry's bytes start
/// with the node's path followed by `byte`.
proof fn lemma_child_iff_live(
    nodes: Seq<Node>,
    paths: Seq<Seq<u8>>,
    parents: Seq<int>,
    entries: Map<Key, nat>,
    cur: int,
    byte: u8,
)
    requires
        arena_inv(nodes, paths, parents, entries, None),
        0 <= cur < nodes.len(),
    ensures
        child_of(nodes[cur].children@, byte) is Some <==> live(entries, paths[cur].push(byte)),
{
    let target = paths[cur].push(byte);
    if child_of(nodes[cur].children@, byte) is Some {
        let c = child_of(nodes[cur].children@, byte)->0;
        assert(live(entries, paths[c as int]));
    } else {
        lemma_missing_child(nodes, paths, parents, entries, None, cur, byte);
        if live(entries, target) {
            let k = choose|k: Key| #[trigger] entries.contains_key(k) && target.is_prefix_of(k.0);
            let w = choose|w: int| 0 <= w < nodes.len() && #[trigger] paths[w] == k.0;
            let n = lemma_prefix_node(nodes, paths, parents, entries, None, w, target.len() as int);
            assert(k.0.take(target.len() as int) =~= target);
            assert(paths[n] != target);
        }
    }
}

/// Replacing the fallback of every node by one and the same rule keeps
/// the invariant.
proof fn lemma_install(
    nodes: Seq<Node>,
    paths: Seq<Seq<u8>>,
    parents: Seq<int>,
    entries: Map<Key, nat>,
    after: Seq<Node>,
    rule: FallbackView,
)
    requires
        arena_inv(nodes, paths, parents, entries, None),
        after.len() == nodes.len(),
        forall|n: int|
            0 <= n < nodes.len() ==> {
                &&& (#[trigger] after[n]).children == nodes[n].children
                &&& after[n].on_end == nodes[n].on_end
                &&& after[n].on_continue == nodes[n].on_continue
                &&& fallback_view(after[n].fallback) == Some(rule)
            },
    ensures
        arena_inv(after, paths, parents, entries, None),
{
    assert forall|n: int| 0 <= n < after.len() implies distinct_bytes(
        (#[trigger] after[n]).children@,
    ) by {
        assert(after[n].children == nodes[n].children);
        assert(distinct_bytes(nodes[n].children@));
    }
    assert forall|n: int, b: u8| 0 <= n < after.len() implies (#[trigger] child_of(
        after[n].children@,
        b,
    ) matches Some(c) ==> n < c < after.len() && paths[c as int] == paths[n].push(b)) by {
        assert(after[n].children == nodes[n].children);
        assert(child_of(after[n].children@, b) == child_of(nodes[n].children@, b));
    }
    assert forall|m: int| 1 <= m < after.len() implies {
        &&& 0 <= #[trigger] parents[m] < m
        &&& paths[m].len() > 0
        &&& paths[parents[m]] == paths[m].drop_last()
        &&& child_of(after[parents[m]].children@, paths[m].last()) == Some(m as usize)
    } by {
        let p = parents[m];
        assert(after[p].children == nodes[p].children);
    }
    assert forall|n: int| 0 <= n < after.len() implies slot_agrees(
        (#[trigger] after[n]).on_end,
        entries,
        (paths[n], MatchKind::Exact),
    ) && slot_agrees(after[n].on_continue, entries, (paths[n], MatchKind::Prefix)) by {
        assert(slot_agrees(nodes[n].on_end, entries, (paths[n], MatchKind::Exact)));
        assert(slot_agrees(nodes[n].on_continue, entries, (paths[n], MatchKind::Prefix)));
    }
}

/// A copy of an optional fallback rule.
fn clone_fallback(f: &Option<FallbackRule>) -> (r: Option<FallbackRule>)
    ensures
        r == *f,
{
    match f {
        Some(FallbackRule::Wildcard(action)) => Some(FallbackRule::Wildcard(*action)),
        Some(FallbackRule::Binder(name, action)) => Some(FallbackRule::Binder(name.clone(), *action)),
        None => None,
    }
}

impl View for Trie {
    type V = TrieView;

    closed spec fn view(&self) -> TrieView {
        TrieView { entries: self.entries@, fallback: fallback_view(self.nodes@[0].fallback) }
    }
}

impl Trie {
    /// The arena is a tree rooted at node 0, and its action slots hold
    /// exactly the entries of the view.
    pub closed spec fn wf(&self) -> bool {
        arena_inv(self.nodes@, self.paths@, self.parents@, self.entries@, None)
    }

    /// A trie that holds the root alone: no entry, no fallback.
    pub fn new() -> (trie: Trie)
        ensures
            trie.wf(),
            trie@.entries == Map::<Key, nat>::empty(),
            trie@.fallback is None,
    {
        let mut nodes: Vec<Node> = Vec::new();
        nodes.push(Node::new(None));
        Trie {
            nodes,
            paths: Ghost(Seq::<Seq<u8>>::empty().push(Seq::empty())),
            parents: Ghost(Seq::<int>::empty().push(0)),
            entries: Ghost(Map::empty()),
        }
    }

    /// The number of nodes.
    pub closed spec fn size(&self) -> nat {
        self.nodes@.len()
    }

    /// The bytes that lead from the root to `node`.
    pub closed spec fn path_of(&self, node: usize) -> Seq<u8> {
        self.paths@[node as int]
    }

    /// The nodes are the prefixes of the entries' bytes, each once: no two
    /// nodes share a path, the root has the empty path, every other node
    /// has a path that some entry's bytes start with, and every such path
    /// is that of a node.
    pub proof fn lemma_nodes_are_prefixes(&self)
        requires
            self.wf(),
        ensures
            self.size() >= 1,
            self.path_of(0) == Seq::<u8>::empty(),
            forall|m: usize, n: usize|
                m < self.size() && n < self.size() && #[trigger] self.path_of(m)
                    == #[trigger] self.path_of(n) ==> m == n,
            forall|n: usize| 0 < n < self.size() ==> self@.extends(#[trigger] self.path_of(n)),
            forall|path: Seq<u8>| #[trigger]
                self@.extends(path) ==> exists|n: usize|
                    n < self.size() && #[trigger] self.path_of(n) == path,
    {
        let nodes = self.nodes@;
        let paths = self.paths@;
        assert(paths[0] =~= Seq::<u8>::empty());
        assert forall|m: usize, n: usize|
            m < self.size() && n < self.size() && #[trigger] self.path_of(m)
                == #[trigger] self.path_of(n) implies m == n by {
            if m < n {
                assert(paths[m as int] != paths[n as int]);
            } else if n < m {
                assert(paths[n as int] != paths[m as int]);
            }
        }
        assert forall|n: usize| 0 < n < self.size() implies self@.extends(
            #[trigger] self.path_of(n),
        ) by {
            assert(live(self.entries@, paths[n as int]));
        }
        assert forall|path: Seq<u8>| #[trigger] self@.extends(path) implies exists|n: usize|
            n < self.size() && #[trigger] self.path_of(n) == path by {
            let k = choose|k: Key| #[trigger] self.entries@.contains_key(k) && path.is_prefix_of(k.0);
            let w = choose|w: int| 0 <= w < nodes.len() && #[trigger] paths[w] == k.0;
            let n = lemma_prefix_node(
                nodes,
                paths,
                self.parents@,
                self.entries@,
                None,
                w,
                path.len() as int,
            );
            assert(k.0.take(path.len() as int) =~= path);
            assert(self.nodes.len() == nodes.len());
            assert(self.path_of(n as usize) == path);
        }
    }

    /// The root, whose path is empty.
    pub fn root(&self) -> (node: usize)
        requires
            self.wf(),
        ensures
            node < self.size(),
            self.path_of(node) == Seq::<u8>::empty(),
    {
        assert(self.paths@[0] =~= Seq::<u8>::empty());
        0
    }

    /// The child of `node` for `byte`. There is one exactly where some
    /// entry's bytes start with the path of `node` followed by `byte`.
    pub fn find_arm(&self, node: usize, byte: u8) -> (r: Option<usize>)
        requires
            self.wf(),
            node < self.size(),
        ensures
            r is Some <==> self@.extends(self.path_of(node).push(byte)),
            r matches Some(child) ==> node < child < self.size() && self.path_of(child)
                == self.path_of(node).push(byte),
    {
        proof {
            lemma_child_iff_live(
                self.nodes@,
                self.paths@,
                self.parents@,
                self.entries@,
                node as int,
                byte,
            );
        }
        self.nodes[node].find_arm(byte)
    }

    /// The action of the `Exact` entry whose bytes are the path of `node`.
    pub fn on_end(&self, node: usize) -> (r: Option<usize>)
        requires
            self.wf(),
            node < self.size(),
        ensures
            slot_agrees(r, self@.entries, (self.path_of(node), MatchKind::Exact)),
    {
        self.nodes[node].on_end
    }

    /// The action of the `Prefix` entry whose bytes are the path of `node`.
    pub fn on_continue(&self, node: usize) -> (r: Option<usize>)
        requires
            self.wf(),
            node < self.size(),
        ensures
            slot_agrees(r, self@.entries, (self.path_of(node), MatchKind::Prefix)),
    {
        self.nodes[node].on_continue
    }

    /// The fallback installed at `node`: that of the trie.
    pub fn fallback(&self, node: usize) -> (r: &Option<FallbackRule>)
        requires
            self.wf(),
            node < self.size(),
        ensures
            fallback_view(*r) == self@.fallback,
    {
        &self.nodes[node].fallback
    }

    /// The fallback rule at `node` of a trie that has one installed.
    pub fn installed(&self, node: usize) -> (r: &FallbackRule)
        requires
            self.wf(),
            node < self.size(),
            self@.fallback is Some,
        ensures
            Some(r@) == self@.fallback,
    {
        self.nodes[node].fallback.as_ref().unwrap()
    }

    /// The number of nodes; their ids are the numbers below it.
    pub fn len(&self) -> (n: usize)
        ensures
            n == self.size(),
    {
        self.nodes.len()
    }

    /// The children of `node`, as `(byte, node id)` pairs, no two of them
    /// with the same byte. A byte has a pair exactly where some entry's
    /// bytes start with the path of `node` followed by that byte, and the
    /// pair's node has that path.
    pub fn children(&self, node: usize) -> (r: &Vec<(u8, usize)>)
        requires
            self.wf(),
            node < self.size(),
        ensures
            distinct_bytes(r@),
            forall|k: int| 0 <= k < r@.len() ==> child_of(r@, (#[trigger] r@[k]).0) == Some(r@[k].1),
            forall|byte: u8|
                (#[trigger] child_of(r@, byte)) is Some <==> self@.extends(
                    self.path_of(node).push(byte),
                ),
            forall|byte: u8| #[trigger]
                child_of(r@, byte) matches Some(child) ==> node < child < self.size()
                    && self.path_of(child) == self.path_of(node).push(byte),
    {
        proof {
            let pairs = self.nodes@[node as int].children@;
            assert(distinct_bytes(pairs));
            assert forall|k: int| 0 <= k < pairs.len() implies child_of(
                pairs,
                (#[trigger] pairs[k]).0,
            ) == Some(pairs[k].1) by {
                lemma_child_of_distinct(pairs, k);
            }
            assert forall|byte: u8|
                (#[trigger] child_of(self.nodes@[node as int].children@, byte)) is Some
                    <==> self@.extends(self.path_of(node).push(byte)) by {
                lemma_child_iff_live(
                    self.nodes@,
                    self.paths@,
                    self.parents@,
                    self.entries@,
                    node as int,
                    byte,
                );
            }
        }
        &self.nodes[node].children
    }

    /// Installs the fallback rule at every node, parents before children,
    /// so that each node has an outcome for every byte and for the end of
    /// the source. Without a rule to install the rule set is incomplete.
    pub fn insert_wild(&mut self, wild: &Option<FallbackRule>) -> (r: Result<(), BuildError>)
        requires
            old(self).wf(),
        ensures
            final(self).wf(),
            final(self)@.entries == old(self)@.entries,
            final(self).size() == old(self).size(),
            forall|n: usize|
                n < old(self).size() ==> #[trigger] final(self).path_of(n) == old(self).path_of(n),
            match *wild {
                Some(rule) => r is Ok && final(self)@.fallback == Some(rule@),
                None => r == Err::<(), BuildError>(BuildError::IncompleteMatch) && final(self)@
                    == old(self)@,
            },
    {
        if wild.is_none() {
            return Err(BuildError::IncompleteMatch);
        }
        let ghost before = self.nodes@;
        let mut i: usize = 0;
        while i < self.nodes.len()
            invariant
                wild is Some,
                i <= self.nodes.len(),
                before == old(self).nodes@,
                self.paths@ == old(self).paths@,
                self.parents@ == old(self).parents@,
                self.entries@ == old(self).entries@,
                old(self).wf(),
                self.nodes@.len() == before.len(),
                forall|n: int|
                    0 <= n < before.len() ==> {
                        &&& (#[trigger] self.nodes@[n]).children == before[n].children
                        &&& self.nodes@[n].on_end == before[n].on_end
                        &&& self.nodes@[n].on_continue == before[n].on_continue
                    },
                forall|n: int|
                    0 <= n < i ==> fallback_view((#[trigger] self.nodes@[n]).fallback) == Some(
                        wild->0@,
                    ),
            decreases self.nodes.len() - i,
        {
            self.nodes[i].fallback = clone_fallback(wild);
            i += 1;
        }
        proof {
            lemma_install(
                before,
                self.paths@,
                self.parents@,
                self.entries@,
                self.nodes@,
                wild->0@,
            );
        }
        Ok(())
    }

    /// Inserts one entry: walks from the root along `bytes`, creates the
    /// nodes that are missing, and sets the action slot of the last node.
    /// Fails, and changes nothing, where that slot is taken.
    pub fn insert_arm(&mut self, bytes: &[u8], kind: MatchKind, action: usize) -> (r: Result<
        (),
        BuildError,
    >)
        requires
            old(self).wf(),
        ensures
            final(self).wf(),
            final(self)@.fallback == old(self)@.fallback,
            match r {
                Ok(()) => !old(self)@.entries.contains_key((bytes@, kind)) && final(self)@.entries
                    == old(self)@.entries.insert((bytes@, kind), action as nat),
                Err(e) => e == BuildError::DuplicatePattern && old(self)@.entries.contains_key(
                    (bytes@, kind),
                ) && final(self)@ == old(self)@,
            },
            final(self).size() == old(self).size() + if r is Ok {
                old(self)@.missing(bytes@)
            } else {
                0
            },
            forall|n: usize|
                n < old(self).size() ==> #[trigger] final(self).path_of(n) == old(self).path_of(n),
            forall|n: usize|
                old(self).size() <= n < final(self).size() ==> (#[trigger] final(self).path_of(
                    n,
                )).is_prefix_of(bytes@),
    {
        let mut cur: usize = 0;
        let mut i: usize = 0;
        let ghost mut created = false;
        assert(bytes@.take(0) =~= self.paths@[0]);
        while i < bytes.len()
            invariant
                i <= bytes.len(),
                arena_inv(self.nodes@, self.paths@, self.parents@, self.entries@, Some(bytes@)),
                self.entries@ == old(self).entries@,
                cur < self.nodes.len(),
                self.paths@[cur as int] == bytes@.take(i as int),
                fallback_view(self.nodes@[0].fallback) == fallback_view(old(self).nodes@[0].fallback),
                !created ==> self.nodes@ == old(self).nodes@ && self.paths@ == old(self).paths@
                    && self.parents@ == old(self).parents@,
                created ==> self.nodes@[cur as int].on_end is None
                    && self.nodes@[cur as int].on_continue is None
                    && self.nodes@[cur as int].children@.len() == 0,
                old(self).wf(),
                created ==> !live(old(self).entries@, bytes@.take(i as int)),
                self.nodes@.len() == old(self).nodes@.len() + missing_upto(
                    old(self).entries@,
                    bytes@,
                    i as int,
                ),
                forall|n: int|
                    0 <= n < old(self).nodes@.len() ==> #[trigger] self.paths@[n] == old(
                        self,
                    ).paths@[n],
                forall|n: int|
                    old(self).nodes@.len() <= n < self.nodes@.len() ==> (
                    #[trigger] self.paths@[n]).is_prefix_of(bytes@),
            decreases bytes.len() - i,
        {
            let b = bytes[i];
            assert(bytes@.take(i as int).push(b) =~= bytes@.take(i + 1));
            proof {
                if created {
                    assert(bytes@.take(i as int).is_prefix_of(bytes@.take(i + 1)));
                    if live(old(self).entries@, bytes@.take(i + 1)) {
                        let k = choose|k: Key| #[trigger]
                            old(self).entries@.contains_key(k) && bytes@.take(i + 1).is_prefix_of(
                                k.0,
                            );
                        assert(bytes@.take(i as int).is_prefix_of(k.0));
                    }
                } else {
                    lemma_child_iff_live(
                        old(self).nodes@,
                        old(self).paths@,
                        old(self).parents@,
                        old(self).entries@,
                        cur as int,
                        b,
                    );
                }
            }
            match self.nodes[cur].find_arm(b) {
                Some(c) => {
                    cur = c;
                },
                None => {
                    let fresh = self.nodes.len();
                    let ghost before = self.nodes@;
                    let fallback = clone_fallback(&self.nodes[0].fallback);
                    self.nodes.push(Node::new(fallback));
                    self.nodes[cur].children.push((b, fresh));
                    proof {
                        lemma_grow(
                            before,
                            self.paths@,
                            self.parents@,
                            self.entries@,
                            bytes@,
                            cur as int,
                            b,
                            fresh,
                            self.nodes@,
                        );
                        self.paths@ = self.paths@.push(self.paths@[cur as int].push(b));
                        self.parents@ = self.parents@.push(cur as int);
                        created = true;
                    }
                    cur = fresh;
                },
            }
            i += 1;
        }
        assert(bytes@.take(i as int) =~= bytes@);
        let ghost before = self.nodes@;
        match kind {
            MatchKind::Exact => {
                if self.nodes[cur].on_end.is_some() {
                    return Err(BuildError::DuplicatePattern);
                }
                self.nodes[cur].on_end = Some(action);
            },
            MatchKind::Prefix => {
                if self.nodes[cur].on_continue.is_some() {
                    return Err(BuildError::DuplicatePattern);
                }
                self.nodes[cur].on_continue = Some(action);
            },
        }
        proof {
            lemma_set_slot(
                before,
                self.paths@,
                self.parents@,
                self.entries@,
                bytes@,
                kind,
                action,
                cur as int,
                self.nodes@,
            );
            self.entries@ = self.entries@.insert((bytes@, kind), action as nat);
        }
        Ok(())
    }
}

} // verus!
