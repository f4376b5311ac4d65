//! Iterators over sorted entries.

pub mod two_merge_iterator;

use vstd::prelude::*;

use crate::key::{key_lt, KeySlice, KeyView};

verus! {

/// Why an iterator could not move on.
#[derive(Debug)]
pub struct IterError {
    pub message: String,
}

impl View for IterError {
    type V = Seq<char>;

    open spec fn view(&self) -> Seq<char> {
        self.message@
    }
}

/// The failure in which an attempt to move on has ended, or none.
pub open spec fn failure_of(result: Result<(), IterError>) -> Option<Seq<char>> {
    match result {
        Ok(_) => None,
        Err(error) => Some(error@),
    }
}

/// A key with its value.
pub type EntryView = (KeyView, Seq<u8>);

/// The keys of the entries go up.
pub open spec fn is_sorted(entries: Seq<EntryView>) -> bool {
    forall|i: int, j: int|
        0 <= i < j < entries.len() ==> key_lt((#[trigger] entries[i]).0, (#[trigger] entries[j]).0)
}

/// A position in a run of entries.
///
/// An iterator tells by `remaining` and `wf` what it goes through. One that does not tell is never
/// in order, so that nothing is claimed of it.
pub trait StorageIterator {
    /// The entry at the position and those after it.
    open spec fn remaining(&self) -> Seq<EntryView> {
        Seq::empty()
    }

    /// The iterator is in order. One that has failed to move on need not be.
    open spec fn wf(&self) -> bool {
        false
    }

    /// Moving on can end in the failure, or without one. An iterator that tells a single outcome
    /// ends in that one; one whose outcome rests on something outside can tell more of them.
    open spec fn can_end_in(&self, failure: Option<Seq<char>>) -> bool {
        true
    }

    /// The iterator always succeeds in moving on.
    open spec fn is_infallible(&self) -> bool {
        false
    }

    /// Get the current key.
    fn key(&self) -> (key: KeySlice<'_>)
        requires
            self.wf(),
            self.remaining().len() > 0,
        ensures
            key@ == self.remaining()[0].0,
    ;

    /// Get the current value.
    fn value(&self) -> (value: &[u8])
        requires
            self.wf(),
            self.remaining().len() > 0,
        ensures
            value@ == self.remaining()[0].1,
    ;

    /// Check if the current iterator is valid.
    fn is_valid(&self) -> (valid: bool)
        requires
            self.wf(),
        ensures
            valid == (self.remaining().len() > 0),
    ;

    /// Move to the next position.
    fn next(&mut self) -> (result: Result<(), IterError>)
        requires
            old(self).wf(),
            old(self).remaining().len() > 0,
        ensures
            result is Ok ==> final(self).wf() && final(self).remaining() == old(
                self,
            ).remaining().drop_first(),
            old(self).can_end_in(failure_of(result)),
            old(self).is_infallible() ==> result is Ok && final(self).is_infallible(),
    ;
}

} // verus!
