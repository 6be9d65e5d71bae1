//! Rule normalization: raw patterns become flat `(bytes, kind, action)`
//! entries plus at most one fallback rule.

use vstd::prelude::*;

verus! {

/// How a byte pattern relates to the input it is matched against.
#[derive(Clone, Copy, PartialEq, Eq, Debug, Structural)]
pub enum MatchKind {
    /// The source must end right after the pattern's bytes.
    Exact,
    /// The pattern matches as soon as its bytes are seen, whatever follows.
    Prefix,
}

/// Why a rule set could not be compiled.
#[derive(Clone, Copy, PartialEq, Eq, Debug, Structural)]
pub enum BuildError {
    /// Two entries share the same bytes and kind.
    DuplicatePattern,
    /// More than one wildcard or binder rule was supplied.
    MultipleFallback,
    /// A pattern has a shape that the normalizer does not accept.
    UnsupportedPattern,
    /// The rule set has no fallback rule, so some input would have no outcome.
    IncompleteMatch,
}

/// A pattern as a front end hands it over.
#[derive(Debug)]
pub enum Pattern {
    /// These bytes, then the end of the source.
    Literal(Vec<u8>),
    /// The bytes of the inner literal, whatever follows. Only a literal may
    /// stand inside.
    Prefix(Box<Pattern>),
    /// Any one of the alternatives; all of them share the rule's action.
    Or(Vec<Pattern>),
    /// The fallback that ignores the bytes consumed.
    Wildcard,
    /// The fallback that receives the bytes consumed under this name.
    Binder(String),
    /// A range of byte values. Not accepted.
    Range(u8, u8),
    /// A pattern that holds only under a condition. Not accepted.
    Guarded(Box<Pattern>),
    /// A structural pattern with parts of its own. Not accepted.
    Tuple(Vec<Pattern>),
}

/// A pattern paired with the action it selects. The action is never inspected.
pub struct Rule<A> {
    pub pattern: Pattern,
    pub action: A,
}

/// One normalized entry. `action` is the index of the rule it came from.
#[derive(Debug)]
pub struct Entry {
    pub bytes: Vec<u8>,
    pub kind: MatchKind,
    pub action: usize,
}

/// The single default of a rule set. The index is that of the rule it came from.
#[derive(Debug)]
pub enum FallbackRule {
    Wildcard(usize),
    Binder(String, usize),
}

/// A normalized rule set: flat entries and at most one fallback rule.
#[derive(Debug)]
pub struct RuleSet {
    pub entries: Vec<Entry>,
    pub fallback: Option<FallbackRule>,
}

/// The mathematical content of an [`Entry`].
pub struct EntryView {
    pub bytes: Seq<u8>,
    pub kind: MatchKind,
    pub action: nat,
}

/// The mathematical content of a [`FallbackRule`]: the action, and the
/// binder's name where there is one.
pub struct FallbackView {
    pub binder: Option<Seq<char>>,
    pub action: nat,
}

/// The mathematical content of a [`RuleSet`].
pub struct RuleSetView {
    pub entries: Seq<EntryView>,
    pub fallback: Option<FallbackView>,
}

/// What one alternative of a pattern normalizes to.
pub enum Leaf {
    Entry(Seq<u8>, MatchKind),
    Fallback(Option<Seq<char>>),
    Unsupported,
}

impl View for Entry {
    type V = EntryView;

    open spec fn view(&self) -> EntryView {
        EntryView { bytes: self.bytes@, kind: self.kind, action: self.action as nat }
    }
}

impl View for FallbackRule {
    type V = FallbackView;

    open spec fn view(&self) -> FallbackView {
        match *self {
            FallbackRule::Wildcard(action) => FallbackView { binder: None, action: action as nat },
            FallbackRule::Binder(name, action) => FallbackView {
                binder: Some(name@),
                action: action as nat,
            },
        }
    }
}

impl View for RuleSet {
    type V = RuleSetView;

    open spec fn view(&self) -> RuleSetView {
        RuleSetView {
            entries: self.entries@.map_values(|e: Entry| e@),
            fallback: match self.fallback {
                Some(f) => Some(f@),
                None => None,
            },
        }
    }
}

/// No two of these entries share bytes and kind.
pub open spec fn distinct_entries(entries: Seq<EntryView>) -> bool {
    forall|i: int, j: int|
        0 <= i < j < entries.len() ==> !((#[trigger] entries[i]).bytes == (#[trigger] entries[j]).bytes
            && entries[i].kind == entries[j].kind)
}

impl RuleSetView {
    /// The rule set with no entry and no fallback.
    pub open spec fn empty() -> RuleSetView {
        RuleSetView { entries: Seq::empty(), fallback: None }
    }

    /// Some entry has these bytes and this kind.
    pub open spec fn has(self, bytes: Seq<u8>, kind: MatchKind) -> bool {
        exists|i: int|
            0 <= i < self.entries.len() && (#[trigger] self.entries[i]).bytes == bytes
                && self.entries[i].kind == kind
    }

    /// No two entries share bytes and kind.
    pub open spec fn distinct(self) -> bool {
        distinct_entries(self.entries)
    }

    /// Every action index is below `n`.
    pub open spec fn actions_below(self, n: nat) -> bool {
        &&& forall|i: int| 0 <= i < self.entries.len() ==> (#[trigger] self.entries[i]).action < n
        &&& self.fallback matches Some(f) ==> f.action < n
    }

    /// The rule set after one more leaf, or the error that the leaf causes.
    pub open spec fn add_leaf(self, leaf: Leaf, action: nat) -> Result<RuleSetView, BuildError> {
        match leaf {
            Leaf::Unsupported => Err(BuildError::UnsupportedPattern),
            Leaf::Fallback(binder) => if self.fallback is Some {
                Err(BuildError::MultipleFallback)
            } else {
                Ok(RuleSetView { fallback: Some(FallbackView { binder, action }), ..self })
            },
            Leaf::Entry(bytes, kind) => if self.has(bytes, kind) {
                Err(BuildError::DuplicatePattern)
            } else {
                Ok(
                    RuleSetView {
                        entries: self.entries.push(EntryView { bytes, kind, action }),
                        ..self
                    },
                )
            },
        }
    }

    /// The rule set after these leaves, taken in order, or the first error.
    pub open spec fn add_leaves(self, leaves: Seq<Leaf>, action: nat) -> Result<
        RuleSetView,
        BuildError,
    >
        decreases leaves.len(),
    {
        if leaves.len() == 0 {
            Ok(self)
        } else {
            match self.add_leaves(leaves.drop_last(), action) {
                Ok(rules) => rules.add_leaf(leaves.last(), action),
                Err(e) => Err(e),
            }
        }
    }
}

/// The leaves of a pattern, in the order in which they are written. An
/// alternation contributes the leaves of each alternative; every other
/// pattern is one leaf.
pub open spec fn pattern_leaves(p: Pattern) -> Seq<Leaf>
    decreases p,
{
    match p {
        Pattern::Literal(bytes) => seq![Leaf::Entry(bytes@, MatchKind::Exact)],
        Pattern::Prefix(inner) => match *inner {
            Pattern::Literal(bytes) => seq![Leaf::Entry(bytes@, MatchKind::Prefix)],
            _ => seq![Leaf::Unsupported],
        },
        Pattern::Or(alternatives) => alternatives_leaves(alternatives@),
        Pattern::Wildcard => seq![Leaf::Fallback(None)],
        Pattern::Binder(name) => seq![Leaf::Fallback(Some(name@))],
        Pattern::Range(_, _) => seq![Leaf::Unsupported],
        Pattern::Guarded(_) => seq![Leaf::Unsupported],
        Pattern::Tuple(_) => seq![Leaf::Unsupported],
    }
}

/// The leaves of a sequence of alternatives, left to right.
pub open spec fn alternatives_leaves(ps: Seq<Pattern>) -> Seq<Leaf>
    decreases ps,
{
    if ps.len() == 0 {
        Seq::empty()
    } else {
        alternatives_leaves(ps.drop_last()) + pattern_leaves(ps.last())
    }
}

/// What normalizing a list of patterns gives: pattern `i` contributes its
/// leaves with action `i`, in order, and the first leaf that cannot be
/// added decides the error.
pub open spec fn normalize_spec(patterns: Seq<Pattern>) -> Result<RuleSetView, BuildError>
    decreases patterns.len(),
{
    if patterns.len() == 0 {
        Ok(RuleSetView::empty())
    } else {
        match normalize_spec(patterns.drop_last()) {
            Ok(rules) => rules.add_leaves(
                pattern_leaves(patterns.last()),
                (patterns.len() - 1) as nat,
            ),
            Err(e) => Err(e),
        }
    }
}

/// Whether two byte strings are equal.
fn bytes_eq(a: &[u8], b: &[u8]) -> (r: bool)
    ensures
        r == (a@ == b@),
{
    if a.len() != b.len() {
        return false;
    }
    let mut i: usize = 0;
    while i < a.len()
        invariant
            i <= a.len(),
            a.len() == b.len(),
            forall|j: int| 0 <= j < i ==> a@[j] == b@[j],
        decreases a.len() - i,
    {
        if a[i] != b[i] {
            return false;
        }
        i += 1;
    }
    assert(a@ =~= b@);
    true
}

impl RuleSet {
    /// A rule set with no entry and no fallback.
    pub fn new() -> (r: RuleSet)
        ensures
            r@ == RuleSetView::empty(),
    {
        let r = RuleSet { entries: Vec::new(), fallback: None };
        assert(r@.entries =~= Seq::empty());
        r
    }

    /// Whether some entry has these bytes and this kind.
    pub fn contains(&self, bytes: &[u8], kind: MatchKind) -> (r: bool)
        ensures
            r == self@.has(bytes@, kind),
    {
        let mut i: usize = 0;
        while i < self.entries.len()
            invariant
                i <= self.entries.len(),
                forall|j: int|
                    0 <= j < i ==> !((#[trigger] self@.entries[j]).bytes == bytes@
                        && self@.entries[j].kind == kind),
            decreases self.entries.len() - i,
        {
            let e = &self.entries[i];
            assert(self@.entries[i as int] == e@);
            if e.kind == kind && bytes_eq(e.bytes.as_slice(), bytes) {
                return true;
            }
            i += 1;
        }
        false
    }
}

/// Adding the leaves of `a + b` is adding those of `a`, then those of `b`.
pub proof fn lemma_add_leaves_concat(rules: RuleSetView, a: Seq<Leaf>, b: Seq<Leaf>, action: nat)
    ensures
        rules.add_leaves(a + b, action) == match rules.add_leaves(a, action) {
            Ok(mid) => mid.add_leaves(b, action),
            Err(e) => Err(e),
        },
    decreases b.len(),
{
    if b.len() == 0 {
        assert(a + b =~= a);
    } else {
        assert((a + b).drop_last() =~= a + b.drop_last());
        assert((a + b).last() == b.last());
        lemma_add_leaves_concat(rules, a, b.drop_last(), action);
    }
}

/// Adding a single leaf through `add_leaves` is `add_leaf`.
pub proof fn lemma_add_leaves_single(rules: RuleSetView, leaf: Leaf, action: nat)
    ensures
        rules.add_leaves(seq![leaf], action) == rules.add_leaf(leaf, action),
{
    let s = seq![leaf];
    assert(s.drop_last() =~= Seq::<Leaf>::empty());
    assert(s.last() == leaf);
    reveal_with_fuel(RuleSetView::add_leaves, 2);
}

/// Adds one entry, unless an entry with the same bytes and kind is there.
fn add_entry(out: &mut RuleSet, bytes: &Vec<u8>, kind: MatchKind, action: usize) -> (r: Result<
    (),
    BuildError,
>)
    ensures
        match old(out)@.add_leaf(Leaf::Entry(bytes@, kind), action as nat) {
            Ok(rules) => r is Ok && final(out)@ == rules,
            Err(e) => r == Err::<(), BuildError>(e) && final(out)@ == old(out)@,
        },
{
    if out.contains(bytes.as_slice(), kind) {
        return Err(BuildError::DuplicatePattern);
    }
    let copy = bytes.clone();
    assert(copy@ =~= bytes@);
    out.entries.push(Entry { bytes: copy, kind, action });
    assert(out@.entries =~= old(out)@.entries.push(
        EntryView { bytes: bytes@, kind, action: action as nat },
    ));
    Ok(())
}

/// Sets the fallback rule, unless one is there.
fn add_fallback(out: &mut RuleSet, rule: FallbackRule) -> (r: Result<(), BuildError>)
    ensures
        match old(out)@.add_leaf(Leaf::Fallback(rule@.binder), rule@.action) {
            Ok(rules) => r is Ok && final(out)@ == rules,
            Err(e) => r == Err::<(), BuildError>(e) && final(out)@ == old(out)@,
        },
{
    if out.fallback.is_some() {
        return Err(BuildError::MultipleFallback);
    }
    out.fallback = Some(rule);
    Ok(())
}

/// Leaves are added behind the entries that are there, and a fallback
/// that is there stays.
pub proof fn lemma_add_leaves_extends(rules: RuleSetView, leaves: Seq<Leaf>, action: nat)
    ensures
        rules.add_leaves(leaves, action) matches Ok(out) ==> {
            &&& rules.entries.len() <= out.entries.len()
            &&& out.entries.take(rules.entries.len() as int) == rules.entries
            &&& rules.fallback is Some ==> out.fallback == rules.fallback
        },
    decreases leaves.len(),
{
    if leaves.len() == 0 {
        assert(rules.entries.take(rules.entries.len() as int) =~= rules.entries);
    } else {
        lemma_add_leaves_extends(rules, leaves.drop_last(), action);
        if let Ok(mid) = rules.add_leaves(leaves.drop_last(), action) {
            if let Ok(out) = mid.add_leaf(leaves.last(), action) {
                assert(out.entries.take(rules.entries.len() as int) =~= mid.entries.take(
                    rules.entries.len() as int,
                ));
            }
        }
    }
}

/// Normalizes one rule: adds every alternative of `pattern` to `out`, each
/// with the rule's `action`. Fails, and changes nothing, at the first
/// alternative that cannot be added.
pub fn parse_arm(out: &mut RuleSet, pattern: &Pattern, action: usize) -> (r: Result<
    (),
    BuildError,
>)
    ensures
        match old(out)@.add_leaves(pattern_leaves(*pattern), action as nat) {
            Ok(rules) => r is Ok && final(out)@ == rules,
            Err(e) => r == Err::<(), BuildError>(e) && final(out)@ == old(out)@,
        },
    decreases pattern,
{
    proof {
        if pattern_leaves(*pattern).len() == 1 {
            lemma_add_leaves_single(old(out)@, pattern_leaves(*pattern)[0], action as nat);
            assert(pattern_leaves(*pattern) =~= seq![pattern_leaves(*pattern)[0]]);
        }
    }
    match pattern {
        Pattern::Literal(bytes) => add_entry(out, bytes, MatchKind::Exact, action),
        Pattern::Prefix(inner) => match &**inner {
            Pattern::Literal(bytes) => add_entry(out, bytes, MatchKind::Prefix, action),
            _ => Err(BuildError::UnsupportedPattern),
        },
        Pattern::Or(alternatives) => {
            let start = out.entries.len();
            let had_fallback = out.fallback.is_some();
            let mut i: usize = 0;
            assert(alternatives@.take(0) =~= Seq::<Pattern>::empty());
            assert(out@.entries.take(start as int) =~= out@.entries);
            while i < alternatives.len()
                invariant
                    i <= alternatives.len(),
                    *pattern == Pattern::Or(*alternatives),
                    old(out)@.add_leaves(alternatives_leaves(alternatives@.take(i as int)), action as nat)
                        == Ok::<RuleSetView, BuildError>(out@),
                    start == old(out).entries.len(),
                    start <= out.entries.len(),
                    out@.entries.take(start as int) == old(out)@.entries,
                    had_fallback == (old(out)@.fallback is Some),
                    had_fallback ==> out@.fallback == old(out)@.fallback,
                decreases alternatives.len() - i,
            {
                let ghost before = out@;
                let ghost done = alternatives_leaves(alternatives@.take(i as int));
                let ghost next = pattern_leaves(alternatives@[i as int]);
                proof {
                    let upto = alternatives@.take(i + 1);
                    assert(upto.drop_last() =~= alternatives@.take(i as int));
                    assert(upto.last() == alternatives@[i as int]);
                    assert(alternatives_leaves(upto) == done + next);
                    lemma_add_leaves_concat(old(out)@, done, next, action as nat);
                    let rest = alternatives_leaves(alternatives@.skip(i + 1));
                    assert(alternatives@ =~= upto + alternatives@.skip(i + 1));
                    lemma_alternatives_concat(upto, alternatives@.skip(i + 1));
                    lemma_add_leaves_concat(old(out)@, done + next, rest, action as nat);
                    lemma_add_leaves_extends(before, next, action as nat);
                }
                match parse_arm(out, &alternatives[i], action) {
                    Ok(()) => {
                        assert(out@.entries.take(start as int) =~= before.entries.take(
                            start as int,
                        ));
                    },
                    Err(e) => {
                        out.entries.truncate(start);
                        if !had_fallback {
                            out.fallback = None;
                        }
                        assert(out@.entries =~= old(out)@.entries);
                        return Err(e);
                    },
                }
                i += 1;
            }
            assert(alternatives@.take(i as int) =~= alternatives@);
            Ok(())
        },
        Pattern::Wildcard => add_fallback(out, FallbackRule::Wildcard(action)),
        Pattern::Binder(name) => add_fallback(out, FallbackRule::Binder(name.clone(), action)),
        Pattern::Range(_, _) => Err(BuildError::UnsupportedPattern),
        Pattern::Guarded(_) => Err(BuildError::UnsupportedPattern),
        Pattern::Tuple(_) => Err(BuildError::UnsupportedPattern),
    }
}

/// The leaves of `a + b` are those of `a`, then those of `b`.
pub proof fn lemma_alternatives_concat(a: Seq<Pattern>, b: Seq<Pattern>)
    ensures
        alternatives_leaves(a + b) == alternatives_leaves(a) + alternatives_leaves(b),
    decreases b.len(),
{
    if b.len() == 0 {
        assert(a + b =~= a);
        assert(alternatives_leaves(a) + alternatives_leaves(b) =~= alternatives_leaves(a));
    } else {
        assert((a + b).drop_last() =~= a + b.drop_last());
        assert((a + b).last() == b.last());
        lemma_alternatives_concat(a, b.drop_last());
        assert(alternatives_leaves(a + b) =~= alternatives_leaves(a) + alternatives_leaves(b));
    }
}

/// Normalizes a list of patterns; pattern `i` gets action `i`.
pub fn normalize(patterns: &Vec<Pattern>) -> (r: Result<RuleSet, BuildError>)
    ensures
        match normalize_spec(patterns@) {
            Ok(rules) => r matches Ok(out) && out@ == rules,
            Err(e) => r matches Err(f) && f == e,
        },
{
    let mut out = RuleSet::new();
    let mut i: usize = 0;
    assert(patterns@.take(0) =~= Seq::<Pattern>::empty());
    while i < patterns.len()
        invariant
            i <= patterns.len(),
            normalize_spec(patterns@.take(i as int)) == Ok::<RuleSetView, BuildError>(out@),
        decreases patterns.len() - i,
    {
        proof {
            let upto = patterns@.take(i + 1);
            assert(upto.drop_last() =~= patterns@.take(i as int));
            assert(upto.last() == patterns@[i as int]);
            lemma_normalize_error_stays(upto, patterns@.skip(i + 1));
            assert(patterns@ =~= upto + patterns@.skip(i + 1));
        }
        match parse_arm(&mut out, &patterns[i], i) {
            Ok(()) => {},
            Err(e) => {
                return Err(e);
            },
        }
        i += 1;
    }
    assert(patterns@.take(i as int) =~= patterns@);
    Ok(out)
}

/// An error among the first patterns is the error of the whole list.
pub proof fn lemma_normalize_error_stays(a: Seq<Pattern>, b: Seq<Pattern>)
    ensures
        normalize_spec(a) matches Err(e) ==> normalize_spec(a + b) == Err::<RuleSetView, BuildError>(e),
    decreases b.len(),
{
    if b.len() == 0 {
        assert(a + b =~= a);
    } else {
        assert((a + b).drop_last() =~= a + b.drop_last());
        lemma_normalize_error_stays(a, b.drop_last());
    }
}

/// Adding leaves keeps the entries distinct and the action indices below
/// any bound above `action`.
pub proof fn lemma_add_leaves_keeps(rules: RuleSetView, leaves: Seq<Leaf>, action: nat, n: nat)
    requires
        rules.distinct(),
        rules.actions_below(n),
        action < n,
    ensures
        rules.add_leaves(leaves, action) matches Ok(out) ==> out.distinct() && out.actions_below(n),
    decreases leaves.len(),
{
    if leaves.len() > 0 {
        lemma_add_leaves_keeps(rules, leaves.drop_last(), action, n);
        if let Ok(mid) = rules.add_leaves(leaves.drop_last(), action) {
            if let Ok(out) = mid.add_leaf(leaves.last(), action) {
                if leaves.last() is Entry {
                    assert forall|i: int, j: int| 0 <= i < j < out.entries.len() implies !((
                    #[trigger] out.entries[i]).bytes == (#[trigger] out.entries[j]).bytes
                        && out.entries[i].kind == out.entries[j].kind) by {
                        if j < mid.entries.len() {
                            assert(out.entries[i] == mid.entries[i]);
                            assert(out.entries[j] == mid.entries[j]);
                        } else {
                            assert(out.entries[i] == mid.entries[i]);
                        }
                    }
                }
            }
        }
    }
}

/// A rule set that normalization gives has distinct entries, and its
/// action indices are positions in the list of patterns.
pub proof fn lemma_normalize_distinct(patterns: Seq<Pattern>)
    ensures
        normalize_spec(patterns) matches Ok(rules) ==> rules.distinct() && rules.actions_below(
            patterns.len(),
        ),
    decreases patterns.len(),
{
    if patterns.len() > 0 {
        lemma_normalize_distinct(patterns.drop_last());
        if let Ok(mid) = normalize_spec(patterns.drop_last()) {
            lemma_add_leaves_keeps(
                mid,
                pattern_leaves(patterns.last()),
                (patterns.len() - 1) as nat,
                patterns.len(),
            );
        }
    }
}

} // verus!
