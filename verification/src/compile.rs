//! Construction: entries go into the trie one by one, then the fallback
//! is installed at every node.

use crate::laws::lemma_bytes_always_select;
use crate::matcher::{
    all_ok, offers, result_view, select, taken, Fired, MatchError, Selection, SelectionView,
};
use crate::rules::{
    distinct_entries, lemma_normalize_distinct, normalize, normalize_spec, BuildError, EntryView,
    Pattern, Rule, RuleSet,
};
use crate::source::{with_held, MatchRefIterator, MaybeUnwrap, Source, Wrap};
use crate::trie::{Key, Trie, TrieView};
use std::convert::Infallible;
use vstd::prelude::*;
use vstd::std_specs::iter::IteratorSpec;
use vstd::string::StringSliceAdditionalSpecFns;

verus! {

/// The key of an entry.
pub open spec fn key_of(e: EntryView) -> Key {
    (e.bytes, e.kind)
}

/// The map from key to action that a list of entries stands for.
pub open spec fn entries_map(entries: Seq<EntryView>) -> Map<Key, nat>
    decreases entries.len(),
{
    if entries.len() == 0 {
        Map::empty()
    } else {
        entries_map(entries.drop_last()).insert(key_of(entries.last()), entries.last().action)
    }
}

/// The map holds the keys of the entries and no others; where the entries
/// are distinct, each key has the action of its entry.
pub proof fn lemma_entries_map(entries: Seq<EntryView>)
    ensures
        forall|k: Key| #[trigger]
            entries_map(entries).contains_key(k) <==> exists|j: int|
                0 <= j < entries.len() && key_of(#[trigger] entries[j]) == k,
        distinct_entries(entries) ==> forall|j: int|
            0 <= j < entries.len() ==> entries_map(entries)[key_of(#[trigger] entries[j])]
                == entries[j].action,
    decreases entries.len(),
{
    if entries.len() > 0 {
        let front = entries.drop_last();
        let last = entries.last();
        lemma_entries_map(front);
        assert forall|k: Key| #[trigger]
            entries_map(entries).contains_key(k) <==> exists|j: int|
                0 <= j < entries.len() && key_of(#[trigger] entries[j]) == k by {
            if entries_map(entries).contains_key(k) {
                if k == key_of(last) {
                    assert(key_of(entries[entries.len() - 1]) == k);
                } else {
                    assert(entries_map(front).contains_key(k));
                    let j = choose|j: int| 0 <= j < front.len() && key_of(#[trigger] front[j]) == k;
                    assert(key_of(entries[j]) == k);
                }
            }
            if exists|j: int| 0 <= j < entries.len() && key_of(#[trigger] entries[j]) == k {
                let j = choose|j: int| 0 <= j < entries.len() && key_of(#[trigger] entries[j]) == k;
                if j < front.len() {
                    assert(key_of(front[j]) == k);
                    assert(entries_map(front).contains_key(k));
                } else {
                    assert(entries[j] == last);
                }
                assert(entries_map(entries).contains_key(k));
            }
        }
        if distinct_entries(entries) {
            assert(distinct_entries(front)) by {
                assert forall|i: int, j: int| 0 <= i < j < front.len() implies !((
                #[trigger] front[i]).bytes == (#[trigger] front[j]).bytes && front[i].kind
                    == front[j].kind) by {
                    assert(front[i] == entries[i]);
                    assert(front[j] == entries[j]);
                }
            }
            assert forall|j: int| 0 <= j < entries.len() implies entries_map(entries)[key_of(
                #[trigger] entries[j],
            )] == entries[j].action by {
                if j < front.len() {
                    assert(front[j] == entries[j]);
                    assert(key_of(entries[j]) != key_of(last));
                }
            }
        }
    }
}

/// Builds the trie of a normalized rule set: inserts every entry, then
/// installs the fallback. Entries that share bytes and kind are refused;
/// so is a rule set without a fallback; every other rule set compiles.
pub fn build(rules: &RuleSet) -> (r: Result<Trie, BuildError>)
    ensures
        !rules@.distinct() ==> r == Err::<Trie, BuildError>(BuildError::DuplicatePattern),
        rules@.distinct() && rules@.fallback is None ==> r == Err::<Trie, BuildError>(
            BuildError::IncompleteMatch,
        ),
        rules@.distinct() && rules@.fallback is Some ==> (r matches Ok(trie) && trie.wf()
            && trie@.entries == entries_map(rules@.entries) && trie@.fallback == rules@.fallback),
{
    let mut trie = Trie::new();
    let mut i: usize = 0;
    assert(rules@.entries.take(0) =~= Seq::<EntryView>::empty());
    while i < rules.entries.len()
        invariant
            i <= rules.entries.len(),
            trie.wf(),
            trie@.fallback is None,
            trie@.entries == entries_map(rules@.entries.take(i as int)),
            distinct_entries(rules@.entries.take(i as int)),
        decreases rules.entries.len() - i,
    {
        let entry = &rules.entries[i];
        let ghost done = rules@.entries.take(i as int);
        let ghost upto = rules@.entries.take(i + 1);
        proof {
            assert(rules@.entries[i as int] == entry@);
            assert(upto.drop_last() =~= done);
            assert(upto.last() == entry@);
            lemma_entries_map(done);
        }
        match trie.insert_arm(entry.bytes.as_slice(), entry.kind, entry.action) {
            Ok(()) => {
                proof {
                    assert forall|a: int, b: int| 0 <= a < b < upto.len() implies !((
                    #[trigger] upto[a]).bytes == (#[trigger] upto[b]).bytes && upto[a].kind
                        == upto[b].kind) by {
                        if b < done.len() {
                            assert(done[a] == upto[a] && done[b] == upto[b]);
                        } else {
                            assert(key_of(done[a]) == key_of(upto[a]));
                        }
                    }
                }
            },
            Err(e) => {
                proof {
                    let j = choose|j: int|
                        0 <= j < done.len() && key_of(#[trigger] done[j]) == key_of(entry@);
                    assert(rules@.entries[j] == done[j]);
                    assert(rules@.entries[j].bytes == rules@.entries[i as int].bytes);
                }
                return Err(e);
            },
        }
        i += 1;
    }
    assert(rules@.entries.take(i as int) =~= rules@.entries);
    match trie.insert_wild(&rules.fallback) {
        Ok(()) => Ok(trie),
        Err(e) => Err(e),
    }
}

/// What compiling a list of patterns gives: the view of the trie, or the
/// error. Normalization comes first; a rule set that it accepts still
/// fails where it has no fallback.
pub open spec fn compile_spec(patterns: Seq<Pattern>) -> Result<TrieView, BuildError> {
    match normalize_spec(patterns) {
        Ok(rules) => match rules.fallback {
            Some(f) => Ok(TrieView { entries: entries_map(rules.entries), fallback: Some(f) }),
            None => Err(BuildError::IncompleteMatch),
        },
        Err(e) => Err(e),
    }
}

/// The patterns of a list of rules.
pub open spec fn patterns_of<A>(rules: Seq<Rule<A>>) -> Seq<Pattern> {
    rules.map_values(|r: Rule<A>| r.pattern)
}

/// The actions of a list of rules.
pub open spec fn actions_of<A>(rules: Seq<Rule<A>>) -> Seq<A> {
    rules.map_values(|r: Rule<A>| r.action)
}

/// Every action index of the view is below `n`.
pub open spec fn in_range(t: TrieView, n: nat) -> bool {
    &&& forall|key: Key| #[trigger] t.entries.contains_key(key) ==> t.entries[key] < n
    &&& t.fallback matches Some(f) ==> f.action < n
}

/// A compiled rule set: the trie, and the actions that its indices name.
pub struct Matcher<A> {
    trie: Trie,
    actions: Vec<A>,
}

impl<A> View for Matcher<A> {
    type V = TrieView;

    closed spec fn view(&self) -> TrieView {
        self.trie@
    }
}

impl<A> Matcher<A> {
    /// The trie is well formed and complete, and every action index names
    /// one of the actions.
    pub closed spec fn wf(&self) -> bool {
        &&& self.trie.wf()
        &&& self.trie@.fallback is Some
        &&& in_range(self.trie@, self.actions@.len() as nat)
    }

    /// The actions, by rule index.
    pub closed spec fn actions(&self) -> Seq<A> {
        self.actions@
    }

    /// The trie.
    pub fn trie(&self) -> (t: &Trie)
        requires
            self.wf(),
        ensures
            t.wf(),
            t@ == self@,
            t@.fallback is Some,
    {
        &self.trie
    }

    /// Matches a source, as [`Trie::run`] does. The action selected is
    /// one of this matcher's actions.
    pub fn run<E, I: Iterator<Item = Result<u8, E>>>(&self, source: &mut Source<I>) -> (r: Result<
        Selection,
        MatchError<E>,
    >)
        requires
            self.wf(),
        ensures
            r matches Ok(s) ==> s.action < self.actions().len() && offers(self@, s@.action),
            final(source).held is Some <==> (r matches Ok(s) && s.fired == Fired::OnContinue),
            <I as IteratorSpec>::obeys_prophetic_iter_laws(&final(source).iter)
                == <I as IteratorSpec>::obeys_prophetic_iter_laws(&old(source).iter),
            <I as IteratorSpec>::obeys_prophetic_iter_laws(&old(source).iter) ==> {
                let input = with_held(
                    old(source).held,
                    <I as IteratorSpec>::remaining(&old(source).iter),
                );
                let left = with_held(
                    final(source).held,
                    <I as IteratorSpec>::remaining(&final(source).iter),
                );
                &&& result_view(r) == select(self@, input)
                &&& taken(self@, Seq::empty(), input) <= input.len()
                &&& left == input.skip(taken(self@, Seq::empty(), input) as int)
                &&& r matches Ok(s) ==> s.consumed == taken(self@, Seq::empty(), input) && left
                    == input.skip(s.consumed as int)
            },
    {
        self.trie.run(source)
    }

    /// Matches a byte string, a source that cannot fail.
    pub fn run_bytes(&self, bytes: &[u8]) -> (s: Selection)
        requires
            self.wf(),
        ensures
            select::<Infallible>(self@, all_ok(bytes@)) == Ok::<SelectionView, MatchError<Infallible>>(
                s@,
            ),
            s.action < self.actions().len(),
    {
        let mut wrap = Wrap(Some(bytes));
        let mut source = Source::new(wrap.bytes());
        let mut result = Wrap(Some(self.run(&mut source)));
        proof {
            lemma_bytes_always_select::<Infallible>(self@, Seq::empty(), bytes@);
        }
        (&mut &mut result).maybe_unwrap()
    }

    /// Matches a text: the bytes of its UTF-8 encoding.
    pub fn run_str(&self, text: &str) -> (s: Selection)
        requires
            self.wf(),
        ensures
            select::<Infallible>(self@, all_ok(text.spec_bytes())) == Ok::<
                SelectionView,
                MatchError<Infallible>,
            >(s@),
            s.action < self.actions().len(),
    {
        self.run_bytes(text.as_bytes())
    }

    /// The action of rule `index`, if there is such a rule.
    pub fn action(&self, index: usize) -> (r: Option<&A>)
        ensures
            match r {
                Some(a) => index < self.actions().len() && *a == self.actions()[index as int],
                None => index >= self.actions().len(),
            },
    {
        if index < self.actions.len() {
            Some(&self.actions[index])
        } else {
            None
        }
    }
}

/// Compiles rules into a matcher: normalizes the patterns, builds the trie
/// and installs the fallback. Rule `i` has action index `i`.
pub fn lighter<A>(rules: Vec<Rule<A>>) -> (r: Result<Matcher<A>, BuildError>)
    ensures
        match compile_spec(patterns_of(rules@)) {
            Ok(view) => r matches Ok(m) && m.wf() && m@ == view && m.actions() == actions_of(
                rules@,
            ),
            Err(e) => r matches Err(f) && f == e,
        },
{
    let ghost all = rules@;
    let mut patterns: Vec<Pattern> = Vec::new();
    let mut actions: Vec<A> = Vec::new();
    for rule in it: rules
        invariant
            it.seq() == all,
            patterns@ == patterns_of(all.take(it.index())),
            actions@ == actions_of(all.take(it.index())),
    {
        assert(all.take(it.index() + 1) =~= all.take(it.index()).push(rule));
        patterns.push(rule.pattern);
        actions.push(rule.action);
        assert(patterns@ =~= patterns_of(all.take(it.index() + 1)));
        assert(actions@ =~= actions_of(all.take(it.index() + 1)));
    }
    assert(all.take(all.len() as int) =~= all);
    let set = match normalize(&patterns) {
        Ok(set) => set,
        Err(e) => {
            return Err(e);
        },
    };
    proof {
        lemma_normalize_distinct(patterns@);
    }
    match build(&set) {
        Ok(trie) => {
            proof {
                lemma_entries_map(set@.entries);
            }
            Ok(Matcher { trie, actions })
        },
        Err(e) => Err(e),
    }
}

} // verus!
