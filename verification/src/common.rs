//! Pull-sources and push-sinks: the interfaces that decouple the pipeline
//! stages from whatever feeds them characters or collects their tokens.

use vstd::prelude::*;

verus! {

/// Which way a bracket points.
#[derive(Debug, PartialEq, Eq)]
pub enum Direction {
    Left,
    Right,
}

/// A `Source` yields items of some type `T`, one at a time, in the order given
/// by `remaining()`. A finite source signals permanent exhaustion by returning
/// `None`, telling its user to move on.
pub trait Source<T> {
    /// The items this source will still yield, front first.
    spec fn remaining(&self) -> Seq<T>;

    fn take(&mut self) -> (r: Option<T>)
        ensures
            old(self).remaining().len() == 0 ==> r is None
                && final(self).remaining() == old(self).remaining(),
            old(self).remaining().len() > 0 ==> r == Some(old(self).remaining()[0])
                && final(self).remaining() == old(self).remaining().drop_first(),
    ;
}

impl<T> Source<T> for Vec<T> {
    open spec fn remaining(&self) -> Seq<T> {
        self@
    }

    fn take(&mut self) -> (r: Option<T>) {
        if self.is_empty() {
            None
        } else {
            Some(self.remove(0))
        }
    }
}

impl<T> Source<T> for std::collections::VecDeque<T> {
    open spec fn remaining(&self) -> Seq<T> {
        self@
    }

    fn take(&mut self) -> (r: Option<T>) {
        self.pop_front()
    }
}

/// A `Sink` accepts items of some type `T`. Sinks pair with sources: an item
/// put into a sink is appended to `contents()` and should eventually appear
/// in a source somewhere downstream.
pub trait Sink<T> {
    /// Everything put into this sink so far, oldest first.
    spec fn contents(&self) -> Seq<T>;

    fn put(&mut self, thing: T)
        ensures
            final(self).contents() == old(self).contents().push(thing),
    ;
}

impl<T> Sink<T> for Vec<T> {
    open spec fn contents(&self) -> Seq<T> {
        self@
    }

    fn put(&mut self, thing: T) {
        self.push(thing);
    }
}

impl<T> Sink<T> for std::collections::VecDeque<T> {
    open spec fn contents(&self) -> Seq<T> {
        self@
    }

    fn put(&mut self, thing: T) {
        self.push_back(thing);
    }
}

/// Appending a singleton is the same as pushing its element.
pub broadcast proof fn lemma_add_singleton<A>(s: Seq<A>, x: A)
    ensures
        #[trigger] (s + seq![x]) == s.push(x),
{
    assert(s + seq![x] =~= s.push(x));
}

/// Concatenation of sequences is associative.
pub broadcast proof fn lemma_add_associative<A>(a: Seq<A>, b: Seq<A>, c: Seq<A>)
    ensures
        #[trigger] (a + (b + c)) == (a + b) + c,
{
    assert(a + (b + c) =~= (a + b) + c);
}

} // verus!
