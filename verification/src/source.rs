//! Around the matcher: the byte source that a match pulls from, the kinds
//! of value that can serve as one, and the result of a match on its way
//! out.

use crate::matcher::{all_ok, MatchError};
use std::convert::Infallible;
use vstd::prelude::*;
use vstd::std_specs::iter::IteratorSpec;
use vstd::string::StringSliceAdditionalSpecFns;

verus! {

/// A value on its way into or out of a match. It is handed over once:
/// taking it out leaves `None` behind.
pub struct Wrap<T>(pub Option<T>);

impl<T> Wrap<T> {
    /// Takes the value out.
    fn inner(&mut self) -> (value: T)
        requires
            old(self).0 is Some,
        ensures
            value == old(self).0->0,
            final(self).0 is None,
    {
        self.0.take().unwrap()
    }
}

/// A byte source for the matcher: an iterator over bytes and failures,
/// and room for one byte that a match has seen but not claimed. What is
/// held is the next element that the source yields.
pub struct Source<I> {
    /// The byte handed back, if there is one.
    pub held: Option<u8>,
    /// Where the elements behind it come from.
    pub iter: I,
}

/// The elements of a source that holds `held` and whose iterator will
/// yield `rest`.
pub open spec fn with_held<E>(held: Option<u8>, rest: Seq<Result<u8, E>>) -> Seq<Result<u8, E>> {
    match held {
        Some(byte) => seq![Ok::<u8, E>(byte)] + rest,
        None => rest,
    }
}

impl<E, I: Iterator<Item = Result<u8, E>>> Source<I> {
    /// A source that yields what `iter` yields.
    pub fn new(iter: I) -> (source: Source<I>)
        ensures
            source.held is None,
            source.iter == iter,
    {
        Source { held: None, iter }
    }

    /// The next element: the byte held, if there is one, else what the
    /// iterator gives. `None` is the end of the source.
    pub fn pull(&mut self) -> (element: Option<Result<u8, E>>)
        ensures
            final(self).held is None,
            old(self).held matches Some(byte) ==> element == Some(Ok::<u8, E>(byte))
                && final(self).iter == old(self).iter,
            <I as IteratorSpec>::obeys_prophetic_iter_laws(&final(self).iter)
                == <I as IteratorSpec>::obeys_prophetic_iter_laws(&old(self).iter),
            <I as IteratorSpec>::obeys_prophetic_iter_laws(&old(self).iter) ==> {
                let before = with_held(
                    old(self).held,
                    <I as IteratorSpec>::remaining(&old(self).iter),
                );
                let after = <I as IteratorSpec>::remaining(&final(self).iter);
                if before.len() > 0 {
                    element == Some(before[0]) && after == before.drop_first()
                } else {
                    element is None && after == before
                }
            },
    {
        match self.held.take() {
            Some(byte) => {
                assert(with_held(
                    Some(byte),
                    <I as IteratorSpec>::remaining(&self.iter),
                ).drop_first() =~= <I as IteratorSpec>::remaining(&self.iter));
                Some(Ok(byte))
            },
            None => self.iter.next(),
        }
    }

    /// Hands a byte back: it is the next element that the source yields.
    pub fn put_back(&mut self, byte: u8)
        requires
            old(self).held is None,
        ensures
            final(self).held == Some(byte),
            final(self).iter == old(self).iter,
    {
        self.held = Some(byte);
    }
}

/// The elements of a source that never fails, made from its bytes.
fn wrap_ok<E>(bytes: &[u8]) -> (out: Vec<Result<u8, E>>)
    ensures
        out@ == all_ok::<E>(bytes@),
{
    let mut out: Vec<Result<u8, E>> = Vec::new();
    let mut i: usize = 0;
    while i < bytes.len()
        invariant
            i <= bytes.len(),
            out@ == all_ok::<E>(bytes@.take(i as int)),
        decreases bytes.len() - i,
    {
        out.push(Ok(bytes[i]));
        i += 1;
        assert(out@ =~= all_ok::<E>(bytes@.take(i as int)));
    }
    assert(bytes@.take(i as int) =~= bytes@);
    out
}

/// Owned sequences as byte sources: a buffer of bytes, which never fails,
/// or a sequence of elements that are each a byte or a failure.
pub trait MatchIterator<E> {
    type Iter: Iterator<Item = Result<u8, E>>;

    /// What the source will yield, as long as it has not been handed over.
    spec fn elements(&self) -> Option<Seq<Result<u8, E>>>;

    /// Hands the source over as an iterator over its elements.
    fn bytes(&mut self) -> (it: Self::Iter)
        requires
            old(self).elements() is Some,
        ensures
            final(self).elements() is None,
            it.obeys_prophetic_iter_laws(),
            it.remaining() == old(self).elements()->0,
    ;
}

impl MatchIterator<Infallible> for Wrap<Vec<u8>> {
    type Iter = std::vec::IntoIter<Result<u8, Infallible>>;

    open spec fn elements(&self) -> Option<Seq<Result<u8, Infallible>>> {
        match self.0 {
            Some(buffer) => Some(all_ok(buffer@)),
            None => None,
        }
    }

    fn bytes(&mut self) -> (it: Self::Iter) {
        let buffer = self.inner();
        wrap_ok(buffer.as_slice()).into_iter()
    }
}

impl<E> MatchIterator<E> for Wrap<Vec<Result<u8, E>>> {
    type Iter = std::vec::IntoIter<Result<u8, E>>;

    open spec fn elements(&self) -> Option<Seq<Result<u8, E>>> {
        match self.0 {
            Some(sequence) => Some(sequence@),
            None => None,
        }
    }

    fn bytes(&mut self) -> (it: Self::Iter) {
        self.inner().into_iter()
    }
}

/// Borrowed sequences as byte sources; the bytes are copied out.
pub trait MatchRefIterator<E> {
    type Iter: Iterator<Item = Result<u8, E>>;

    /// What the source will yield, as long as it has not been handed over.
    spec fn elements(&self) -> Option<Seq<Result<u8, E>>>;

    /// Hands the source over as an iterator over its elements.
    fn bytes(&mut self) -> (it: Self::Iter)
        requires
            old(self).elements() is Some,
        ensures
            final(self).elements() is None,
            it.obeys_prophetic_iter_laws(),
            it.remaining() == old(self).elements()->0,
    ;
}

impl<'a> MatchRefIterator<Infallible> for Wrap<&'a [u8]> {
    type Iter = std::vec::IntoIter<Result<u8, Infallible>>;

    open spec fn elements(&self) -> Option<Seq<Result<u8, Infallible>>> {
        match self.0 {
            Some(buffer) => Some(all_ok(buffer@)),
            None => None,
        }
    }

    fn bytes(&mut self) -> (it: Self::Iter) {
        let buffer = self.inner();
        wrap_ok(buffer).into_iter()
    }
}

/// The element that stands for a borrowed one: the byte copied, the
/// failure as it is.
pub open spec fn copied<'a, E>(element: Result<&'a u8, E>) -> Result<u8, E> {
    match element {
        Ok(byte) => Ok(*byte),
        Err(e) => Err(e),
    }
}

impl<'a, E> MatchRefIterator<E> for Wrap<Vec<Result<&'a u8, E>>> {
    type Iter = std::vec::IntoIter<Result<u8, E>>;

    open spec fn elements(&self) -> Option<Seq<Result<u8, E>>> {
        match self.0 {
            Some(sequence) => Some(sequence@.map_values(|r: Result<&'a u8, E>| copied(r))),
            None => None,
        }
    }

    fn bytes(&mut self) -> (it: Self::Iter) {
        let sequence = self.inner();
        let ghost all = sequence@;
        let mut out: Vec<Result<u8, E>> = Vec::new();
        for element in it: sequence
            invariant
                it.seq() == all,
                out@ == all.take(it.index()).map_values(|r: Result<&'a u8, E>| copied(r)),
        {
            assert(all.take(it.index() + 1) =~= all.take(it.index()).push(element));
            let copy = match element {
                Ok(byte) => Ok(*byte),
                Err(e) => Err(e),
            };
            out.push(copy);
            assert(out@ =~= all.take(it.index() + 1).map_values(
                |r: Result<&'a u8, E>| copied(r),
            ));
        }
        assert(all.take(all.len() as int) =~= all);
        out.into_iter()
    }
}

/// Text as a byte source: the bytes of its UTF-8 encoding.
pub trait MatchStr<'a> {
    type Iter: Iterator<Item = Result<u8, Infallible>>;

    /// What the source will yield, as long as it has not been handed over.
    spec fn elements(&self) -> Option<Seq<Result<u8, Infallible>>>;

    /// Hands the source over as an iterator over its elements.
    fn bytes(&mut self) -> (it: Self::Iter)
        requires
            old(self).elements() is Some,
        ensures
            final(self).elements() is None,
            it.obeys_prophetic_iter_laws(),
            it.remaining() == old(self).elements()->0,
    ;
}

impl<'a> MatchStr<'a> for Wrap<&'a str> {
    type Iter = std::vec::IntoIter<Result<u8, Infallible>>;

    open spec fn elements(&self) -> Option<Seq<Result<u8, Infallible>>> {
        match self.0 {
            Some(text) => Some(all_ok(text.spec_bytes())),
            None => None,
        }
    }

    fn bytes(&mut self) -> (it: Self::Iter) {
        let text = self.inner();
        wrap_ok(text.as_bytes()).into_iter()
    }
}

impl<'a> MatchStr<'a> for Wrap<String> {
    type Iter = std::vec::IntoIter<Result<u8, Infallible>>;

    open spec fn elements(&self) -> Option<Seq<Result<u8, Infallible>>> {
        match self.0 {
            Some(text) => Some(all_ok(vstd::utf8::encode_utf8(text@))),
            None => None,
        }
    }

    fn bytes(&mut self) -> (it: Self::Iter) {
        let text = self.inner();
        wrap_ok(text.as_str().as_bytes()).into_iter()
    }
}

/// The result of a match on its way out.
pub trait MaybeUnwrap {
    type Unwrapped;

    /// What `maybe_unwrap` will hand out, as long as it has not.
    spec fn unwrapped(&self) -> Option<Self::Unwrapped>;

    /// Hands the result out.
    fn maybe_unwrap(&mut self) -> (value: Self::Unwrapped)
        requires
            old(self).unwrapped() is Some,
        ensures
            value == old(self).unwrapped()->0,
            final(self).unwrapped() is None,
    ;
}

impl<T, E> MaybeUnwrap for Wrap<Result<T, E>> {
    type Unwrapped = Result<T, E>;

    open spec fn unwrapped(&self) -> Option<Result<T, E>> {
        self.0
    }

    fn maybe_unwrap(&mut self) -> (value: Self::Unwrapped) {
        self.inner()
    }
}

impl<T> MaybeUnwrap for &mut Wrap<Result<T, Infallible>> {
    type Unwrapped = T;

    open spec fn unwrapped(&self) -> Option<T> {
        match (**self).0 {
            Some(Ok(value)) => Some(value),
            _ => None,
        }
    }

    fn maybe_unwrap(&mut self) -> (value: Self::Unwrapped) {
        (**self).inner().unwrap()
    }
}

impl<T> MaybeUnwrap for &mut Wrap<Result<T, MatchError<Infallible>>> {
    type Unwrapped = T;

    open spec fn unwrapped(&self) -> Option<T> {
        match (**self).0 {
            Some(Ok(value)) => Some(value),
            _ => None,
        }
    }

    fn maybe_unwrap(&mut self) -> (value: Self::Unwrapped) {
        (**self).inner().unwrap()
    }
}

} // verus!
