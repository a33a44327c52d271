use crate::keys::{keys_increasing, Entry};
use vstd::prelude::*;

pub mod heap;
pub mod lanes;
pub mod merge_iterator;

verus! {

/// `anyhow::Error`, the failure that a source reports. It is handed on as it
/// comes; nothing is known of a value of it.
#[verifier::external_type_specification]
#[verifier::external_body]
pub struct ExSourceError(anyhow::Error);

/// What a source has still to give, as a mathematical sequence.
pub type Remaining = Seq<Entry>;

/// A sorted source of key-value pairs that is read one entry at a time.
///
/// `remaining` is what the source has still to give, the current entry
/// first; a source is valid while that is not empty. A source that failed to
/// advance is in no known state.
///
/// `inv`, `remaining`, `reliable` and `lemma_increasing` are never run. An
/// implementation that is not verified gives them any body; what is proved of
/// a merge then holds as far as that implementation keeps the contracts below.
pub trait StorageIterator {
    /// The source is in a state in which it can be read.
    spec fn inv(&self) -> bool;

    /// The entries from the current one on.
    spec fn remaining(&self) -> Remaining;

    /// The source cannot fail to advance, neither now nor after any number
    /// of steps. A source that reads from where a read may fail is not
    /// reliable.
    spec fn reliable(&self) -> bool;

    /// A source gives its keys in strictly increasing order.
    proof fn lemma_increasing(&self)
        requires
            self.inv(),
        ensures
            keys_increasing(self.remaining()),
    ;

    /// Get the current value.
    fn value(&self) -> (v: &[u8])
        requires
            self.inv(),
            self.remaining().len() > 0,
        ensures
            v@ == self.remaining()[0].1,
    ;

    /// Get the current key.
    fn key(&self) -> (k: &[u8])
        requires
            self.inv(),
            self.remaining().len() > 0,
        ensures
            k@ == self.remaining()[0].0,
    ;

    /// Check if the current iterator is valid.
    fn is_valid(&self) -> (b: bool)
        requires
            self.inv(),
        ensures
            b == (self.remaining().len() > 0),
    ;

    /// Move to the next position. A reliable source does so without fail,
    /// and stays reliable.
    fn next(&mut self) -> (r: Result<(), anyhow::Error>)
        requires
            old(self).inv(),
            old(self).remaining().len() > 0,
        ensures
            r is Ok ==> final(self).inv() && final(self).remaining() == old(self).remaining().skip(1),
            old(self).reliable() ==> r is Ok && final(self).reliable(),
    ;
}

} // verus!
