use crate::block::{entry_end_at, entry_fits, value_start_at, Block};
use crate::iterators::StorageIterator;
use crate::keys::{
    compare_keys, key_lt, keys_increasing, lemma_key_lt_asymmetric, lemma_key_lt_irreflexive,
    lemma_key_lt_total, lemma_key_lt_transitive, Entry, KeyOrder,
};
use crate::wire::get_u16;
use std::sync::Arc;
use vstd::prelude::*;
use vstd::slice::slice_to_vec;

verus! {

/// Iterates on a block.
pub struct BlockIterator {
    /// The internal `Block`, wrapped by an `Arc`
    block: Arc<Block>,
    /// The current key, empty represents the iterator is invalid
    key: Vec<u8>,
    /// the value range from the block
    value_range: (usize, usize),
    /// Current index of the key-value pair, should be in range of [0, num_of_elements)
    idx: usize,
    /// The first key in the block
    first_key: Vec<u8>,
}

/// `p` is the first place in `entries` whose key is not below `target`; the
/// length of `entries` where every key is below it.
pub open spec fn is_lower_bound(entries: Seq<Entry>, target: Seq<u8>, p: int) -> bool {
    &&& 0 <= p <= entries.len()
    &&& forall|j: int| 0 <= j < p ==> key_lt(#[trigger] entries[j].0, target)
    &&& forall|j: int| p <= j < entries.len() ==> !key_lt(#[trigger] entries[j].0, target)
}

/// No entry of the block has an empty key, which an iterator could not tell
/// from having run out.
pub open spec fn keys_present(entries: Seq<Entry>) -> bool {
    forall|j: int| 0 <= j < entries.len() ==> (#[trigger] entries[j]).0.len() > 0
}

impl BlockIterator {
    /// The block that the iterator reads.
    pub closed spec fn block(&self) -> Block {
        *self.block
    }

    /// The index of the current entry; the number of entries once the
    /// iterator has run out.
    pub closed spec fn position(&self) -> int {
        self.idx as int
    }

    /// The current key; empty once the iterator has run out.
    pub closed spec fn key_view(&self) -> Seq<u8> {
        self.key@
    }

    /// The current value; empty once the iterator has run out.
    pub closed spec fn value_view(&self) -> Seq<u8> {
        self.block.data@.subrange(self.value_range.0 as int, self.value_range.1 as int)
    }

    /// The iterator stands at entry `i` of its block, or behind the last one
    /// where `i` is the number of entries.
    pub open spec fn at(&self, i: int) -> bool {
        &&& self.position() == i
        &&& 0 <= i <= self.block().entries().len()
        &&& i < self.block().entries().len() ==> self.key_view() == self.block().entries()[i].0
            && self.value_view() == self.block().entries()[i].1
        &&& i == self.block().entries().len() ==> self.key_view().len() == 0 && self.value_view().len()
            == 0
    }

    /// The block is well formed and the iterator holds the entry at its position.
    pub closed spec fn wf(&self) -> bool {
        let n = self.block.offsets@.len();
        &&& self.block.wf()
        &&& self.idx <= n
        &&& self.idx < n ==> {
            &&& self.key@ == self.block.entries()[self.idx as int].0
            &&& self.value_range.0 == value_start_at(self.block.data@, self.block.offsets@[self.idx as int] as int)
            &&& self.value_range.1 == entry_end_at(self.block.data@, self.block.offsets@[self.idx as int] as int)
        }
        &&& self.idx == n ==> self.key@.len() == 0 && self.value_range == (0usize, 0usize)
    }

    /// A well-formed iterator stands at its position.
    pub proof fn lemma_wf_at(&self)
        requires
            self.wf(),
        ensures
            self.block().wf(),
            self.at(self.position()),
    {
        let n = self.block.offsets@.len();
        if self.idx < n {
            assert(entry_fits(self.block.data@, self.block.offsets@[self.idx as int] as int));
        }
    }

    /// An iterator on `block` that stands nowhere yet.
    fn new(block: Arc<Block>) -> (it: Self)
        ensures
            it.block() == *block,
    {
        Self { block, key: Vec::new(), value_range: (0, 0), idx: 0, first_key: Vec::new() }
    }

    /// Creates a block iterator and seek to the first entry.
    pub fn create_and_seek_to_first(block: Arc<Block>) -> (it: Self)
        requires
            block.wf(),
        ensures
            it.wf(),
            it.block() == *block,
            it.at(0),
    {
        let mut iter = Self::new(block);
        iter.seek_to_first();
        iter
    }

    /// Creates a block iterator and seek to the first key that >= `key`. The
    /// keys of the block must be strictly increasing.
    pub fn create_and_seek_to_key(block: Arc<Block>, key: &[u8]) -> (it: Self)
        requires
            block.wf(),
            block.sorted(),
        ensures
            it.wf(),
            it.block() == *block,
            is_lower_bound(block.entries(), key@, it.position()),
            it.at(it.position()),
    {
        let mut iter = Self::new(block);
        iter.seek_to_key(key);
        iter
    }

    /// Returns the key of the current entry; the empty key once the iterator
    /// has run out.
    pub fn key(&self) -> (k: &[u8])
        ensures
            k@ == self.key_view(),
    {
        self.key.as_slice()
    }

    /// Returns the value of the current entry; no bytes once the iterator has
    /// run out.
    pub fn value(&self) -> (v: &[u8])
        requires
            self.wf(),
        ensures
            v@ == self.value_view(),
    {
        proof {
            self.lemma_wf_at();
            if self.idx < self.block.offsets@.len() {
                assert(entry_fits(self.block.data@, self.block.offsets@[self.idx as int] as int));
            }
        }
        &self.block.data[self.value_range.0..self.value_range.1]
    }

    /// Returns true if the iterator is valid.
    pub fn is_valid(&self) -> (b: bool)
        ensures
            b == (self.key_view().len() > 0),
    {
        !self.key.is_empty()
    }

    /// Moves to the entry at `idx`: reads its key, and notes where its value
    /// lies. An index behind the last entry leaves the iterator run out.
    fn seek_to(&mut self, idx: usize)
        requires
            old(self).block().wf(),
        ensures
            final(self).wf(),
            final(self).block() == old(self).block(),
            final(self).at(if idx < old(self).block().entries().len() {
                idx as int
            } else {
                old(self).block().entries().len() as int
            }),
    {
        if idx < self.block.offsets.len() {
            let offset = self.block.offsets[idx] as usize;
            assert(entry_fits(self.block.data@, self.block.offsets@[idx as int] as int));
            // offset.... [entry: key_len.. key.. value_len.. value]
            let key_len = get_u16(&self.block.data[offset..offset + 2]) as usize;
            let key_begin = offset + 2;
            self.key = slice_to_vec(&self.block.data[key_begin..key_begin + key_len]);
            let value_len_at = key_begin + key_len;
            let value_len = get_u16(&self.block.data[value_len_at..value_len_at + 2]) as usize;
            let value_offset_begin = offset + 2 + key_len + 2;
            let value_offset_end = value_offset_begin + value_len;
            self.value_range = (value_offset_begin, value_offset_end);
            self.idx = idx;
        } else {
            self.key.clear();
            self.value_range = (0, 0);
            self.idx = self.block.offsets.len();
        }
        proof {
            self.lemma_wf_at();
        }
    }

    /// Seeks to the first key in the block.
    pub fn seek_to_first(&mut self)
        requires
            old(self).block().wf(),
        ensures
            final(self).wf(),
            final(self).block() == old(self).block(),
            final(self).at(0),
    {
        self.seek_to(0)
    }

    /// Move to the next key in the block. An iterator that has run out stays
    /// where it is.
    pub fn next(&mut self)
        requires
            old(self).wf(),
        ensures
            final(self).wf(),
            final(self).block() == old(self).block(),
            final(self).at(if old(self).position() < old(self).block().entries().len() {
                old(self).position() + 1
            } else {
                old(self).position()
            }),
    {
        if self.idx < self.block.offsets.len() {
            self.seek_to(self.idx + 1)
        } else {
            proof {
                self.lemma_wf_at();
            }
        }
    }

    /// Seek to the first key that >= `key`. The keys of the block must be
    /// strictly increasing; the builder does not see to that.
    pub fn seek_to_key(&mut self, key: &[u8])
        requires
            old(self).block().wf(),
            old(self).block().sorted(),
        ensures
            final(self).wf(),
            final(self).block() == old(self).block(),
            is_lower_bound(final(self).block().entries(), key@, final(self).position()),
            final(self).at(final(self).position()),
    {
        let ghost entries = self.block().entries();
        let mut l: usize = 0;
        let mut r: usize = self.block.offsets.len();
        while l < r
            invariant
                self.block() == old(self).block(),
                entries == self.block().entries(),
                self.block().wf(),
                keys_increasing(entries),
                l <= r <= entries.len(),
                forall|j: int| 0 <= j < l ==> key_lt(#[trigger] entries[j].0, key@),
                forall|j: int| r <= j < entries.len() ==> !key_lt(#[trigger] entries[j].0, key@),
            decreases r - l,
        {
            let mid = l + (r - l) / 2;
            self.seek_to(mid);
            let ghost current = entries[mid as int].0;
            assert(self.key_view() == current);
            match compare_keys(self.key(), key) {
                KeyOrder::Equal => {
                    proof {
                        lemma_key_lt_irreflexive(key@);
                        assert forall|j: int| 0 <= j < mid implies key_lt(#[trigger] entries[j].0, key@) by {
                            assert(key_lt(entries[j].0, entries[mid as int].0));
                        }
                        assert forall|j: int| mid <= j < entries.len() implies !key_lt(
                            #[trigger] entries[j].0,
                            key@,
                        ) by {
                            if j > mid {
                                assert(key_lt(entries[mid as int].0, entries[j].0));
                                lemma_key_lt_asymmetric(key@, entries[j].0);
                            }
                        }
                    }
                    return ;
                },
                KeyOrder::Less => {
                    proof {
                        assert forall|j: int| 0 <= j < mid + 1 implies key_lt(
                            #[trigger] entries[j].0,
                            key@,
                        ) by {
                            if j < mid {
                                assert(key_lt(entries[j].0, entries[mid as int].0));
                                lemma_key_lt_transitive(entries[j].0, current, key@);
                            }
                        }
                    }
                    l = mid + 1;
                },
                KeyOrder::Greater => {
                    proof {
                        lemma_key_lt_total(current, key@);
                        assert(key_lt(key@, current));
                        assert forall|j: int| mid <= j < entries.len() implies !key_lt(
                            #[trigger] entries[j].0,
                            key@,
                        ) by {
                            if j > mid {
                                assert(key_lt(entries[mid as int].0, entries[j].0));
                                lemma_key_lt_transitive(key@, current, entries[j].0);
                            }
                            lemma_key_lt_asymmetric(key@, entries[j].0);
                        }
                    }
                    r = mid;
                },
            }
        }
        self.seek_to(l)  // l == r, self.key() >= key
    }
}

impl StorageIterator for BlockIterator {
    /// The iterator is well formed, and its block has strictly increasing
    /// keys, none of them empty.
    open spec fn inv(&self) -> bool {
        &&& self.wf()
        &&& self.block().sorted()
        &&& keys_present(self.block().entries())
    }

    open spec fn remaining(&self) -> Seq<Entry> {
        self.block().entries().skip(self.position())
    }

    /// A block is in memory: moving on in it never fails.
    open spec fn reliable(&self) -> bool {
        true
    }

    proof fn lemma_increasing(&self) {
        self.lemma_wf_at();
        let all = self.block().entries();
        let rest = self.remaining();
        assert forall|i: int, j: int| 0 <= i < j < rest.len() implies key_lt(
            #[trigger] rest[i].0,
            #[trigger] rest[j].0,
        ) by {
            assert(key_lt(all[self.position() + i].0, all[self.position() + j].0));
        }
    }

    fn value(&self) -> (v: &[u8]) {
        proof {
            self.lemma_wf_at();
        }
        BlockIterator::value(self)
    }

    fn key(&self) -> (k: &[u8]) {
        proof {
            self.lemma_wf_at();
        }
        BlockIterator::key(self)
    }

    fn is_valid(&self) -> (b: bool) {
        proof {
            self.lemma_wf_at();
            if self.position() < self.block().entries().len() {
                assert(self.block().entries()[self.position()].0.len() > 0);
            }
        }
        BlockIterator::is_valid(self)
    }

    fn next(&mut self) -> (r: Result<(), anyhow::Error>) {
        proof {
            self.lemma_wf_at();
        }
        BlockIterator::next(self);
        proof {
            assert(self.remaining() =~= old(self).remaining().skip(1));
        }
        Ok(())
    }
}

} // verus!
