//! The matcher engine: one left-to-right pass over a byte source, one byte
//! at a time, that ends by selecting exactly one action.

use crate::rules::{FallbackRule, FallbackView, MatchKind};
use crate::source::{with_held, Source};
use crate::trie::{Key, Trie, TrieView};
use vstd::prelude::*;
use vstd::std_specs::iter::IteratorSpec;

verus! {

/// Which part of a node decided the match.
#[derive(Clone, Copy, PartialEq, Eq, Debug, Structural)]
pub enum Fired {
    /// The source ended at the node of an `Exact` entry.
    OnEnd,
    /// The node of a `Prefix` entry was reached and a byte followed.
    OnContinue,
    /// Nothing else applied: the fallback rule.
    Fallback,
}

/// The one failure a match can end in: the source itself failed.
#[derive(PartialEq, Eq, Debug)]
pub enum MatchError<E> {
    SourceFailure(E),
}

/// The outcome of a match.
#[derive(PartialEq, Eq, Debug)]
pub struct Selection {
    /// The index of the rule whose action was selected.
    pub action: usize,
    /// What selected it.
    pub fired: Fired,
    /// How many bytes the match took out of the source. The source is
    /// left with everything behind them.
    pub consumed: usize,
    /// For a binder fallback, the bytes bound to its name.
    pub bound: Option<Vec<u8>>,
}

/// The mathematical content of a [`Selection`].
pub struct SelectionView {
    pub action: nat,
    pub fired: Fired,
    pub consumed: nat,
    pub bound: Option<Seq<u8>>,
}

impl View for Selection {
    type V = SelectionView;

    open spec fn view(&self) -> SelectionView {
        SelectionView {
            action: self.action as nat,
            fired: self.fired,
            consumed: self.consumed as nat,
            bound: match self.bound {
                Some(bytes) => Some(bytes@),
                None => None,
            },
        }
    }
}

/// The content of a match result.
pub open spec fn result_view<E>(r: Result<Selection, MatchError<E>>) -> Result<
    SelectionView,
    MatchError<E>,
> {
    match r {
        Ok(selection) => Ok(selection@),
        Err(e) => Err(e),
    }
}

/// The fallback's selection once `claimed` has been consumed: a binder
/// binds exactly those bytes, a wildcard binds nothing.
pub open spec fn by_fallback(rule: FallbackView, claimed: Seq<u8>) -> SelectionView {
    SelectionView {
        action: rule.action,
        fired: Fired::Fallback,
        consumed: claimed.len(),
        bound: if rule.binder is Some {
            Some(claimed)
        } else {
            None
        },
    }
}

/// The selection when the source ends after `path`: the `Exact` entry on
/// `path` if there is one, else the fallback with `path`.
pub open spec fn at_end(t: TrieView, path: Seq<u8>) -> SelectionView {
    if t.entries.contains_key((path, MatchKind::Exact)) {
        SelectionView {
            action: t.entries[(path, MatchKind::Exact)],
            fired: Fired::OnEnd,
            consumed: path.len(),
            bound: None,
        }
    } else {
        by_fallback(t.fallback->0, path)
    }
}

/// What one element of the source does to a walk that has consumed
/// `path`: `None` where the walk goes on with `path` and the byte, else
/// the result of the match.
///
/// A failure of the source comes before everything else. At the end of the
/// source the walk ends as `at_end` says. On a byte, a `Prefix` entry on
/// `path` fires without claiming the byte, which stays in the source
/// (`leaves_byte`); else the walk descends where
/// some entry goes on with that byte; else the fallback takes `path` and
/// the byte.
pub open spec fn step_spec<E>(t: TrieView, path: Seq<u8>, element: Option<Result<u8, E>>) -> Option<
    Result<SelectionView, MatchError<E>>,
> {
    match element {
        None => Some(Ok(at_end(t, path))),
        Some(Err(e)) => Some(Err(MatchError::SourceFailure(e))),
        Some(Ok(byte)) => if t.entries.contains_key((path, MatchKind::Prefix)) {
            Some(
                Ok(
                    SelectionView {
                        action: t.entries[(path, MatchKind::Prefix)],
                        fired: Fired::OnContinue,
                        consumed: path.len(),
                        bound: None,
                    },
                ),
            )
        } else if t.extends(path.push(byte)) {
            None
        } else {
            Some(Ok(by_fallback(t.fallback->0, path.push(byte))))
        },
    }
}

/// The result of a walk that has consumed `path` and has `rest` before it.
pub open spec fn walk<E>(t: TrieView, path: Seq<u8>, rest: Seq<Result<u8, E>>) -> Result<
    SelectionView,
    MatchError<E>,
>
    decreases rest.len(),
{
    if rest.len() == 0 {
        Ok(at_end(t, path))
    } else {
        match step_spec(t, path, Some(rest[0])) {
            Some(result) => result,
            None => walk(t, path.push(rest[0]->Ok_0), rest.drop_first()),
        }
    }
}

/// How many times such a walk polls the source for an element that is
/// there: once for each step.
pub open spec fn pulled<E>(t: TrieView, path: Seq<u8>, rest: Seq<Result<u8, E>>) -> nat
    decreases rest.len(),
{
    if rest.len() == 0 {
        0
    } else {
        match step_spec(t, path, Some(rest[0])) {
            Some(_) => 1,
            None => 1 + pulled(t, path.push(rest[0]->Ok_0), rest.drop_first()),
        }
    }
}

/// The result leaves the byte that decided it in the source: a `Prefix`
/// entry fires on seeing that a byte follows, and claims none of it.
pub open spec fn leaves_byte<E>(result: Result<SelectionView, MatchError<E>>) -> bool {
    result is Ok && result->Ok_0.fired == Fired::OnContinue
}

/// How many elements such a walk takes out of the source for good: every
/// element pulled, but for the byte that a `Prefix` entry fires on.
pub open spec fn taken<E>(t: TrieView, path: Seq<u8>, rest: Seq<Result<u8, E>>) -> nat
    decreases rest.len(),
{
    if rest.len() == 0 {
        0
    } else {
        match step_spec(t, path, Some(rest[0])) {
            Some(result) => if leaves_byte(result) {
                0
            } else {
                1
            },
            None => 1 + taken(t, path.push(rest[0]->Ok_0), rest.drop_first()),
        }
    }
}

/// The elements of a source that yields these bytes and never fails.
pub open spec fn all_ok<E>(bytes: Seq<u8>) -> Seq<Result<u8, E>> {
    bytes.map_values(|b: u8| Ok::<u8, E>(b))
}

/// The result of matching `input` from the root.
pub open spec fn select<E>(t: TrieView, input: Seq<Result<u8, E>>) -> Result<
    SelectionView,
    MatchError<E>,
> {
    walk(t, Seq::empty(), input)
}

/// The action is that of an entry or of the fallback.
pub open spec fn offers(t: TrieView, action: nat) -> bool {
    ||| t.fallback matches Some(f) && f.action == action
    ||| exists|key: Key| #[trigger] t.entries.contains_key(key) && t.entries[key] == action
}

/// Whatever a step selects is an action of the trie.
pub proof fn lemma_step_offers<E>(t: TrieView, path: Seq<u8>, element: Option<Result<u8, E>>)
    requires
        t.fallback is Some,
    ensures
        step_spec(t, path, element) matches Some(Ok(s)) ==> offers(t, s.action),
{
    if t.entries.contains_key((path, MatchKind::Exact)) {
        assert(t.entries[(path, MatchKind::Exact)] == t.entries[(path, MatchKind::Exact)]);
    }
    if t.entries.contains_key((path, MatchKind::Prefix)) {
        assert(t.entries[(path, MatchKind::Prefix)] == t.entries[(path, MatchKind::Prefix)]);
    }
}

/// The state of one match: the node reached and the bytes consumed on the
/// way to it.
#[derive(Debug)]
pub struct Walk {
    pub node: usize,
    pub path: Vec<u8>,
}

/// What a step of the matcher leaves.
#[derive(Debug)]
pub enum Step<E> {
    /// The walk goes on: the byte was claimed.
    Continue(Walk),
    /// The match is over, and the element was part of it.
    Done(Result<Selection, MatchError<E>>),
    /// The match is over, decided by a `Prefix` entry on seeing that a
    /// byte follows. The byte is no part of the match: it is handed back,
    /// to be the next that the source yields.
    Ahead(Selection, u8),
}

/// The selection that a fallback rule makes of the bytes in `claimed`.
fn select_fallback(rule: &FallbackRule, claimed: Vec<u8>) -> (s: Selection)
    ensures
        s@ == by_fallback(rule@, claimed@),
{
    match rule {
        FallbackRule::Wildcard(action) => Selection {
            action: *action,
            fired: Fired::Fallback,
            consumed: claimed.len(),
            bound: None,
        },
        FallbackRule::Binder(_, action) => Selection {
            action: *action,
            fired: Fired::Fallback,
            consumed: claimed.len(),
            bound: Some(claimed),
        },
    }
}

impl Trie {
    /// The walk stands at a node of this trie, and has consumed the bytes
    /// that lead to it.
    pub open spec fn tracks(&self, walk: Walk) -> bool {
        walk.node < self.size() && self.path_of(walk.node) == walk.path@
    }

    /// A fresh walk: at the root, with nothing consumed.
    pub fn start(&self) -> (walk: Walk)
        requires
            self.wf(),
        ensures
            self.tracks(walk),
            walk.path@ == Seq::<u8>::empty(),
    {
        Walk { node: self.root(), path: Vec::new() }
    }

    /// Matches a source against the trie: pulls one element per step
    /// until a step ends the match. Where a `Prefix` entry decides the
    /// match, the byte that it fired on goes back into the source. A source
    /// whose iterator keeps its promises about what it will yield gets the
    /// result that `select` gives for its elements, and is left with
    /// every element that the match did not take: with those behind the
    /// bytes consumed, where the match selected an action.
    pub fn run<E, I: Iterator<Item = Result<u8, E>>>(&self, source: &mut Source<I>) -> (r: Result<
        Selection,
        MatchError<E>,
    >)
        requires
            self.wf(),
            self@.fallback is Some,
        ensures
            r matches Ok(s) ==> offers(self@, s@.action),
            final(source).held is Some <==> (r matches Ok(s) && s.fired == Fired::OnContinue),
            <I as IteratorSpec>::obeys_prophetic_iter_laws(&final(source).iter)
                == <I as IteratorSpec>::obeys_prophetic_iter_laws(&old(source).iter),
            <I as IteratorSpec>::obeys_prophetic_iter_laws(&old(source).iter) ==> {
                let input = with_held(
                    old(source).held,
                    <I as IteratorSpec>::remaining(&old(source).iter),
                );
                let left = with_held(
                    final(source).held,
                    <I as IteratorSpec>::remaining(&final(source).iter),
                );
                &&& result_view(r) == select(self@, input)
                &&& taken(self@, Seq::empty(), input) <= input.len()
                &&& left == input.skip(taken(self@, Seq::empty(), input) as int)
                &&& r matches Ok(s) ==> s.consumed == taken(self@, Seq::empty(), input) && left
                    == input.skip(s.consumed as int)
            },
    {
        let ghost input = with_held(source.held, <I as IteratorSpec>::remaining(&source.iter));
        let ghost obeys = <I as IteratorSpec>::obeys_prophetic_iter_laws(&source.iter);
        let ghost mut gone: int = 0;
        let mut state = self.start();
        assert(input.skip(0) =~= input);
        loop
            invariant
                self.wf(),
                self@.fallback is Some,
                self.tracks(state),
                obeys == <I as IteratorSpec>::obeys_prophetic_iter_laws(&source.iter),
                obeys == <I as IteratorSpec>::obeys_prophetic_iter_laws(&old(source).iter),
                input == with_held(
                    old(source).held,
                    <I as IteratorSpec>::remaining(&old(source).iter),
                ),
                gone == state.path@.len(),
                obeys ==> {
                    let rest = with_held(
                        source.held,
                        <I as IteratorSpec>::remaining(&source.iter),
                    );
                    &&& 0 <= gone <= input.len()
                    &&& rest == input.skip(gone)
                    &&& select(self@, input) == walk(self@, state.path@, rest)
                    &&& taken(self@, Seq::empty(), input) == gone + taken(self@, state.path@, rest)
                },
            decreases self.size() - state.node,
        {
            let ghost rest = with_held(source.held, <I as IteratorSpec>::remaining(&source.iter));
            let element = source.pull();
            proof {
                lemma_step_offers(self@, state.path@, element);
            }
            assert(obeys && rest.len() > 0 ==> rest.drop_first() =~= input.skip(gone + 1));
            match self.step(state, element) {
                Step::Done(out) => {
                    return out;
                },
                Step::Ahead(selection, byte) => {
                    source.put_back(byte);
                    assert(obeys ==> with_held(
                        source.held,
                        <I as IteratorSpec>::remaining(&source.iter),
                    ) =~= rest);
                    return Ok(selection);
                },
                Step::Continue(next) => {
                    state = next;
                    proof {
                        gone = gone + 1;
                    }
                },
            }
        }
    }

    /// Takes the walk one element further. `element` is what the source
    /// gave: a byte, a failure, or `None` at its end.
    pub fn step<E>(&self, walk: Walk, element: Option<Result<u8, E>>) -> (r: Step<E>)
        requires
            self.wf(),
            self@.fallback is Some,
            self.tracks(walk),
        ensures
            match step_spec(self@, walk.path@, element) {
                Some(result) => if leaves_byte(result) {
                    r matches Step::Ahead(selection, byte) && Ok::<SelectionView, MatchError<E>>(
                        selection@,
                    ) == result && element == Some(Ok::<u8, E>(byte))
                } else {
                    r matches Step::Done(out) && result_view(out) == result
                },
                None => r matches Step::Continue(next) && self.tracks(next) && walk.node
                    < next.node && next.path@ == walk.path@.push(element->0->Ok_0),
            },
    {
        let Walk { node, path } = walk;
        match element {
            None => match self.on_end(node) {
                Some(action) => Step::Done(
                    Ok(
                        Selection {
                            action,
                            fired: Fired::OnEnd,
                            consumed: path.len(),
                            bound: None,
                        },
                    ),
                ),
                None => Step::Done(Ok(select_fallback(self.installed(node), path))),
            },
            Some(Err(e)) => Step::Done(Err(MatchError::SourceFailure(e))),
            Some(Ok(byte)) => match self.on_continue(node) {
                Some(action) => Step::Ahead(
                    Selection { action, fired: Fired::OnContinue, consumed: path.len(), bound: None },
                    byte,
                ),
                None => {
                    let mut path = path;
                    path.push(byte);
                    match self.find_arm(node, byte) {
                        Some(child) => Step::Continue(Walk { node: child, path }),
                        None => Step::Done(Ok(select_fallback(self.installed(node), path))),
                    }
                },
            },
        }
    }
}

} // verus!
