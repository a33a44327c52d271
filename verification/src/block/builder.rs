use crate::block::{
    entries_of, entry_bytes, entry_end_at, entry_fits, key_at, layout_ok, lemma_entry_appended,
    lemma_entry_stable, value_at, Block,
};
use crate::keys::Entry;
use crate::wire::{put_bytes, put_u16};
use vstd::prelude::*;
use vstd::slice::slice_to_vec;

verus! {

/// Builds a block.
pub struct BlockBuilder {
    /// Offsets of each key-value entries.
    offsets: Vec<u16>,
    /// All serialized key-value pairs in the block.
    data: Vec<u8>,
    /// The expected block size.
    block_size: usize,
    /// The first key in the block.
    first_key: Vec<u8>,
}

/// What one more entry adds to the encoded size of a block: the entry with
/// its two length fields, and its offset.
pub open spec fn entry_cost(key: Seq<u8>, value: Seq<u8>) -> nat {
    key.len() + value.len() + 4 + 2
}

/// Entry `i` ends where entry `i + 1` starts.
pub open spec fn joined(data: Seq<u8>, offsets: Seq<u16>, i: int) -> bool {
    entry_end_at(data, offsets[i] as int) == offsets[i + 1]
}

/// The entries that `offsets` names lie end to end from the start of `data`:
/// the first starts at 0, each ends where the next starts, and the last ends
/// where `data` ends.
pub open spec fn packed(data: Seq<u8>, offsets: Seq<u16>) -> bool {
    &&& layout_ok(data, offsets)
    &&& offsets.len() == 0 ==> data.len() == 0
    &&& offsets.len() > 0 ==> offsets[0] == 0
    &&& forall|i: int| 0 <= i < offsets.len() - 1 ==> #[trigger] joined(data, offsets, i)
}

/// In a packed block entry `i` starts at least four bytes behind each entry
/// before it.
proof fn lemma_packed_spacing(data: Seq<u8>, offsets: Seq<u16>, i: int)
    requires
        packed(data, offsets),
        0 <= i < offsets.len(),
    ensures
        offsets[i] >= 4 * i,
    decreases i,
{
    if i > 0 {
        lemma_packed_spacing(data, offsets, i - 1);
        assert(joined(data, offsets, i - 1));
        assert(entry_fits(data, offsets[i - 1] as int));
    }
}

/// In a packed block the data ends at least four bytes behind each offset.
proof fn lemma_packed_len(data: Seq<u8>, offsets: Seq<u16>)
    requires
        packed(data, offsets),
    ensures
        data.len() >= 4 * offsets.len(),
        data.len() <= 0xFFFF + 4 + 2 * 0xFFFF,
{
    if offsets.len() > 0 {
        let last = offsets[offsets.len() - 1];
        assert(entry_fits(data, last as int));
        assert(last == offsets.last());
        lemma_packed_spacing(data, offsets, offsets.len() - 1);
    }
}

/// The entries of a block read the same once an entry is written behind them.
proof fn lemma_push_keeps(data: Seq<u8>, offsets: Seq<u16>, more: Seq<u8>, i: int)
    requires
        layout_ok(data, offsets),
        0 <= i < offsets.len(),
    ensures
        entry_fits(data + more, offsets[i] as int),
        key_at(data + more, offsets[i] as int) == key_at(data, offsets[i] as int),
        value_at(data + more, offsets[i] as int) == value_at(data, offsets[i] as int),
        entry_end_at(data + more, offsets[i] as int) == entry_end_at(data, offsets[i] as int),
        offsets[i] < data.len(),
{
    assert(entry_fits(data, offsets[i] as int));
    lemma_entry_stable(data, more, offsets[i] as int);
}

/// An entry written behind a packed block, with its offset, leaves a packed
/// block that holds one entry more.
proof fn lemma_packed_push(data: Seq<u8>, offsets: Seq<u16>, key: Seq<u8>, value: Seq<u8>)
    requires
        packed(data, offsets),
        data.len() <= 0xFFFF,
        key.len() <= 0xFFFF,
        value.len() <= 0xFFFF,
    ensures
        packed(data + entry_bytes(key, value), offsets.push(data.len() as u16)),
        entries_of(data + entry_bytes(key, value), offsets.push(data.len() as u16)) == entries_of(
            data,
            offsets,
        ).push((key, value)),
{
    let more = entry_bytes(key, value);
    let all = data + more;
    let offset = data.len() as u16;
    let marks = offsets.push(offset);
    let n = offsets.len() as int;
    lemma_packed_len(data, offsets);
    lemma_entry_appended(data, key, value);
    assert(marks.len() == n + 1);
    assert(marks[n] == offset);
    assert(marks.last() == offset);
    assert forall|i: int| 0 <= i < marks.len() implies entry_fits(all, #[trigger] marks[i] as int) by {
        if i < n {
            assert(marks[i] == offsets[i]);
            lemma_push_keeps(data, offsets, more, i);
        }
    }
    assert forall|i: int, j: int| 0 <= i < j < marks.len() implies marks[i] < marks[j] by {
        assert(marks[i] == offsets[i]);
        lemma_push_keeps(data, offsets, more, i);
        if j < n {
            assert(marks[j] == offsets[j]);
        }
    }
    assert forall|i: int| 0 <= i < marks.len() - 1 implies #[trigger] joined(all, marks, i) by {
        assert(marks[i] == offsets[i]);
        lemma_push_keeps(data, offsets, more, i);
        if i < n - 1 {
            assert(marks[i + 1] == offsets[i + 1]);
            assert(joined(data, offsets, i));
        } else {
            assert(offsets[i] == offsets.last());
        }
    }
    assert(layout_ok(all, marks));
    let want = entries_of(data, offsets).push((key, value));
    let got = entries_of(all, marks);
    assert(got.len() == want.len());
    assert forall|i: int| 0 <= i < got.len() implies got[i] == want[i] by {
        if i < n {
            assert(marks[i] == offsets[i]);
            lemma_push_keeps(data, offsets, more, i);
        }
    }
    assert(got =~= want);
}

impl BlockBuilder {
    /// The block that `build` would hand out now.
    pub closed spec fn as_block(&self) -> Block {
        Block { data: self.data, offsets: self.offsets }
    }

    /// The byte budget the builder was made with.
    pub closed spec fn budget(&self) -> int {
        self.block_size as int
    }

    /// The first key that was added; empty before that.
    pub closed spec fn first_key(&self) -> Seq<u8> {
        self.first_key@
    }

    /// The entries added so far.
    pub open spec fn entries(&self) -> Seq<Entry> {
        self.as_block().entries()
    }

    /// The size of the block in its encoded form: data, offsets, count.
    pub open spec fn encoded_len(&self) -> nat {
        self.as_block().data@.len() + 2 * self.as_block().offsets@.len() + 2
    }

    /// The entries lie end to end from the start of the data.
    pub closed spec fn wf(&self) -> bool {
        packed(self.data@, self.offsets@)
    }

    /// `add` takes the entry: always into an empty builder; into another one
    /// when the encoded block stays within the budget.
    pub open spec fn accepts(&self, key: Seq<u8>, value: Seq<u8>) -> bool {
        self.entries().len() == 0 || self.encoded_len() + entry_cost(key, value) <= self.budget()
    }

    /// The format can hold what `add` would do with the entry. Where `add`
    /// takes it, the lengths of key and value fit 16 bits each, and so does
    /// the place where the entry starts. An entry that `add` refuses is
    /// never written, so nothing is asked of it.
    pub open spec fn writable(&self, key: Seq<u8>, value: Seq<u8>) -> bool {
        self.accepts(key, value) ==> {
            &&& key.len() <= 0xFFFF
            &&& value.len() <= 0xFFFF
            &&& self.as_block().data@.len() <= 0xFFFF
        }
    }

    /// Creates a new block builder.
    pub fn new(block_size: usize) -> (builder: Self)
        ensures
            builder.wf(),
            builder.budget() == block_size,
            builder.entries() == Seq::<Entry>::empty(),
            builder.as_block().data@ == Seq::<u8>::empty(),
            builder.first_key() == Seq::<u8>::empty(),
            builder.encoded_len() == 2,
    {
        let builder = Self { offsets: Vec::new(), data: Vec::new(), block_size, first_key: Vec::new() };
        assert(builder.entries() =~= Seq::<Entry>::empty());
        builder
    }

    /// Whether the block with this entry in it would be larger, in its
    /// encoded form, than the budget.
    fn over_budget(&self, key: &[u8], value: &[u8]) -> (over: bool)
        requires
            self.wf(),
        ensures
            over == (self.encoded_len() + entry_cost(key@, value@) > self.budget()),
    {
        proof {
            lemma_packed_len(self.data@, self.offsets@);
        }
        // data: [u8] | offsets: [u16] | num of elements: u16, and of the
        // entry: key_len: 2b | value_len: 2b | offset: 2b
        let fixed = self.data.len() + self.offsets.len() * 2 + 2 + 2 + 2 + 2;
        if fixed > self.block_size {
            return true;
        }
        let room = self.block_size - fixed;
        if key.len() > room {
            return true;
        }
        value.len() > room - key.len()
    }

    /// Whether the format can hold what `add` would do with the entry: the
    /// test to make before a call of `add` whose entry is not known to be
    /// small.
    pub fn is_writable(&self, key: &[u8], value: &[u8]) -> (ok: bool)
        requires
            self.wf(),
        ensures
            ok == self.writable(key@, value@),
    {
        if !self.is_empty() && self.over_budget(key, value) {
            return true;
        }
        key.len() <= 0xFFFF && value.len() <= 0xFFFF && self.data.len() <= 0xFFFF
    }

    /// Adds a key-value pair to the block. Returns false when the block is full.
    #[must_use]
    pub fn add(&mut self, key: &[u8], value: &[u8]) -> (accepted: bool)
        requires
            old(self).wf(),
            old(self).writable(key@, value@),
        ensures
            final(self).wf(),
            final(self).budget() == old(self).budget(),
            accepted == old(self).accepts(key@, value@),
            accepted ==> {
                &&& final(self).entries() == old(self).entries().push((key@, value@))
                &&& final(self).as_block().data@ == old(self).as_block().data@ + entry_bytes(key@, value@)
                &&& final(self).as_block().offsets@ == old(self).as_block().offsets@.push(
                    old(self).as_block().data@.len() as u16,
                )
                &&& final(self).encoded_len() == old(self).encoded_len() + entry_cost(key@, value@)
                &&& final(self).first_key() == if old(self).entries().len() == 0 {
                    key@
                } else {
                    old(self).first_key()
                }
            },
            !accepted ==> *final(self) == *old(self),
    {
        if !self.is_empty() && self.over_budget(key, value) {
            return false;
        }
        if self.offsets.is_empty() {
            self.first_key = slice_to_vec(key);
        }
        let ghost before = self.data@;
        let ghost marks = self.offsets@;
        let offset = self.data.len() as u16;
        put_u16(&mut self.data, key.len() as u16);
        put_bytes(&mut self.data, key);
        put_u16(&mut self.data, value.len() as u16);
        put_bytes(&mut self.data, value);
        self.offsets.push(offset);
        proof {
            assert(self.data@ =~= before + entry_bytes(key@, value@));
            lemma_packed_push(before, marks, key@, value@);
        }
        true
    }

    /// Check if there is no key-value pair in the block.
    pub fn is_empty(&self) -> (empty: bool)
        ensures
            empty == (self.entries().len() == 0),
    {
        self.offsets.is_empty()
    }

    /// Finalize the block.
    pub fn build(self) -> (block: Block)
        ensures
            block == self.as_block(),
            self.wf() ==> block.wf() && packed(block.data@, block.offsets@),
    {
        Block { offsets: self.offsets, data: self.data }
    }
}

} // verus!
