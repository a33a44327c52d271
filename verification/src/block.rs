use crate::keys::{keys_increasing, Entry};
use crate::wire::{
    be16, be16_value, buffer_contents, contents, freeze, get_u16, lemma_be16_round_trip, put_u16,
};
use vstd::prelude::*;
use vstd::slice::slice_to_vec;

pub mod builder;
pub mod iterator;

verus! {

/// A block is the smallest unit of read and caching: sorted key-value pairs,
/// laid end to end in `data`, with the place where each pair starts in
/// `offsets`.
pub struct Block {
    pub data: Vec<u8>,
    pub offsets: Vec<u16>,
}

/// Why a byte string is not a block.
#[derive(Clone, Copy, Debug, PartialEq, Eq, Structural)]
pub enum DecodeError {
    /// The trailing count is missing, or announces more offsets than there is room for.
    Truncated,
    /// The offsets do not describe entries that lie within the data.
    Malformed,
}

/// Length of the key of the entry that starts at `off`.
pub open spec fn key_len_at(data: Seq<u8>, off: int) -> int {
    be16_value(data[off], data[off + 1])
}

/// Where the value bytes of the entry at `off` start.
pub open spec fn value_start_at(data: Seq<u8>, off: int) -> int {
    off + 2 + key_len_at(data, off) + 2
}

/// Length of the value of the entry that starts at `off`.
pub open spec fn value_len_at(data: Seq<u8>, off: int) -> int {
    be16_value(data[value_start_at(data, off) - 2], data[value_start_at(data, off) - 1])
}

/// One past the last byte of the entry that starts at `off`.
pub open spec fn entry_end_at(data: Seq<u8>, off: int) -> int {
    value_start_at(data, off) + value_len_at(data, off)
}

/// The key of the entry that starts at `off`.
pub open spec fn key_at(data: Seq<u8>, off: int) -> Seq<u8> {
    data.subrange(off + 2, off + 2 + key_len_at(data, off))
}

/// The value of the entry that starts at `off`.
pub open spec fn value_at(data: Seq<u8>, off: int) -> Seq<u8> {
    data.subrange(value_start_at(data, off), entry_end_at(data, off))
}

/// The entry that starts at `off` lies within `data`, length fields included.
pub open spec fn entry_fits(data: Seq<u8>, off: int) -> bool {
    &&& 0 <= off
    &&& off + 2 <= data.len()
    &&& value_start_at(data, off) <= data.len()
    &&& entry_end_at(data, off) <= data.len()
}

/// The bytes of one entry: key length, key, value length, value.
pub open spec fn entry_bytes(key: Seq<u8>, value: Seq<u8>) -> Seq<u8> {
    be16(key.len() as u16) + key + be16(value.len() as u16) + value
}

/// `offsets` names entries of `data`: each lies within it, they start at
/// strictly increasing places, the last one ends where `data` ends, and their
/// number fits the 16-bit count that closes an encoded block.
pub open spec fn layout_ok(data: Seq<u8>, offsets: Seq<u16>) -> bool {
    &&& offsets.len() <= 0xFFFF
    &&& forall|i: int| 0 <= i < offsets.len() ==> entry_fits(data, #[trigger] offsets[i] as int)
    &&& forall|i: int, j: int| 0 <= i < j < offsets.len() ==> offsets[i] < offsets[j]
    &&& offsets.len() > 0 ==> entry_end_at(data, offsets.last() as int) == data.len()
}

/// The entries that `offsets` names in `data`, in order.
pub open spec fn entries_of(data: Seq<u8>, offsets: Seq<u16>) -> Seq<Entry> {
    Seq::new(offsets.len(), |i: int| (key_at(data, offsets[i] as int), value_at(data, offsets[i] as int)))
}

/// The offsets, two bytes each, most significant byte first.
pub open spec fn offsets_bytes(offsets: Seq<u16>) -> Seq<u8> {
    Seq::new(
        2 * offsets.len(),
        |j: int| if j % 2 == 0 { (offsets[j / 2] / 256) as u8 } else { (offsets[j / 2] % 256) as u8 },
    )
}

/// The persisted form of a block: data, offsets, entry count.
pub open spec fn encoded(data: Seq<u8>, offsets: Seq<u16>) -> Seq<u8> {
    data + offsets_bytes(offsets) + be16(offsets.len() as u16)
}

/// The entry count that the last two bytes announce.
pub open spec fn encoded_count(bytes: Seq<u8>) -> int {
    be16_value(bytes[bytes.len() - 2], bytes[bytes.len() - 1])
}

/// The count is there, and so are as many offsets as it announces.
pub open spec fn framed(bytes: Seq<u8>) -> bool {
    bytes.len() >= 2 && 2 + 2 * encoded_count(bytes) <= bytes.len()
}

/// The data of an encoded block: all that stands before the offsets.
pub open spec fn decoded_data(bytes: Seq<u8>) -> Seq<u8> {
    bytes.subrange(0, bytes.len() - 2 - 2 * encoded_count(bytes))
}

/// The offsets of an encoded block: as many as the count announces, read
/// from the bytes before the count.
pub open spec fn decoded_offsets(bytes: Seq<u8>) -> Seq<u16> {
    Seq::new(
        encoded_count(bytes) as nat,
        |i: int|
            be16_value(
                bytes[bytes.len() - 2 - 2 * encoded_count(bytes) + 2 * i],
                bytes[bytes.len() - 2 - 2 * encoded_count(bytes) + 2 * i + 1],
            ) as u16,
    )
}

/// Decoding what was encoded gives back the same data and offsets.
pub proof fn lemma_decode_encode(data: Seq<u8>, offsets: Seq<u16>)
    requires
        offsets.len() <= 0xFFFF,
    ensures
        framed(encoded(data, offsets)),
        decoded_data(encoded(data, offsets)) == data,
        decoded_offsets(encoded(data, offsets)) == offsets,
        entries_of(decoded_data(encoded(data, offsets)), decoded_offsets(encoded(data, offsets)))
            == entries_of(data, offsets),
{
    let bytes = encoded(data, offsets);
    let n = offsets.len() as int;
    lemma_be16_round_trip(n as u16);
    assert(bytes.len() == data.len() + 2 * n + 2);
    assert(bytes[bytes.len() - 2] == be16(n as u16)[0]);
    assert(bytes[bytes.len() - 1] == be16(n as u16)[1]);
    assert(encoded_count(bytes) == n);
    assert(decoded_data(bytes) =~= data);
    assert forall|i: int| 0 <= i < n implies decoded_offsets(bytes)[i] == offsets[i] by {
        let base = data.len() as int;
        assert(bytes[base + 2 * i] == offsets_bytes(offsets)[2 * i]);
        assert(bytes[base + 2 * i + 1] == offsets_bytes(offsets)[2 * i + 1]);
        assert(be16(offsets[i])[0] == offsets_bytes(offsets)[2 * i]);
        assert(be16(offsets[i])[1] == offsets_bytes(offsets)[2 * i + 1]);
        lemma_be16_round_trip(offsets[i]);
    }
    assert(decoded_offsets(bytes) =~= offsets);
}

/// Encoding what was decoded gives back the same bytes.
pub proof fn lemma_encode_decode(bytes: Seq<u8>)
    requires
        framed(bytes),
    ensures
        encoded(decoded_data(bytes), decoded_offsets(bytes)) == bytes,
{
    let n = encoded_count(bytes);
    let base = bytes.len() - 2 - 2 * n;
    let offsets = decoded_offsets(bytes);
    let back = encoded(decoded_data(bytes), offsets);
    assert(back.len() == bytes.len());
    assert forall|j: int| 0 <= j < bytes.len() implies back[j] == bytes[j] by {
        if j < base {
        } else if j < base + 2 * n {
            let i = (j - base) / 2;
            assert(back[j] == offsets_bytes(offsets)[j - base]);
            assert(offsets[i] == be16_value(bytes[base + 2 * i], bytes[base + 2 * i + 1]));
        } else {
            assert(back[j] == be16(n as u16)[j - base - 2 * n]);
        }
    }
    assert(back =~= bytes);
}

/// Bytes appended behind an entry do not change what it reads as.
pub proof fn lemma_entry_stable(data: Seq<u8>, more: Seq<u8>, off: int)
    requires
        entry_fits(data, off),
    ensures
        entry_fits(data + more, off),
        key_at(data + more, off) == key_at(data, off),
        value_at(data + more, off) == value_at(data, off),
        entry_end_at(data + more, off) == entry_end_at(data, off),
{
    let all = data + more;
    assert(all[off] == data[off]);
    assert(all[off + 1] == data[off + 1]);
    let v = value_start_at(data, off);
    assert(all[v - 2] == data[v - 2]);
    assert(all[v - 1] == data[v - 1]);
    assert(key_at(all, off) =~= key_at(data, off));
    assert(value_at(all, off) =~= value_at(data, off));
}

/// An entry written at the end of `data` reads back as the key and value it was made of.
pub proof fn lemma_entry_appended(data: Seq<u8>, key: Seq<u8>, value: Seq<u8>)
    requires
        key.len() <= 0xFFFF,
        value.len() <= 0xFFFF,
    ensures
        entry_fits(data + entry_bytes(key, value), data.len() as int),
        key_at(data + entry_bytes(key, value), data.len() as int) == key,
        value_at(data + entry_bytes(key, value), data.len() as int) == value,
        entry_end_at(data + entry_bytes(key, value), data.len() as int) == data.len() + 4 + key.len()
            + value.len(),
{
    let e = entry_bytes(key, value);
    let all = data + e;
    let off = data.len() as int;
    lemma_be16_round_trip(key.len() as u16);
    lemma_be16_round_trip(value.len() as u16);
    assert(e.len() == 4 + key.len() + value.len());
    assert(all[off] == be16(key.len() as u16)[0]);
    assert(all[off + 1] == be16(key.len() as u16)[1]);
    assert(key_len_at(all, off) == key.len());
    let v = off + 2 + key.len() + 2;
    assert(all[v - 2] == be16(value.len() as u16)[0]);
    assert(all[v - 1] == be16(value.len() as u16)[1]);
    assert(value_len_at(all, off) == value.len());
    assert(key_at(all, off) =~= key);
    assert(value_at(all, off) =~= value);
}

impl Block {
    /// The entries of the block, in order.
    pub open spec fn entries(&self) -> Seq<Entry> {
        entries_of(self.data@, self.offsets@)
    }

    /// The offsets name entries that lie within the data.
    pub open spec fn wf(&self) -> bool {
        layout_ok(self.data@, self.offsets@)
    }

    /// The keys are strictly increasing.
    pub open spec fn sorted(&self) -> bool {
        keys_increasing(self.entries())
    }

    /// Encodes the block: the data, then each offset, then the number of
    /// entries, the numbers as two bytes with the most significant first.
    pub fn encode(&self) -> (out: bytes::Bytes)
        requires
            self.offsets@.len() <= 0xFFFF,
        ensures
            buffer_contents(out) == encoded(self.data@, self.offsets@),
    {
        let mut buf = self.data.clone();
        assert(buf@ =~= self.data@);
        let n = self.offsets.len();
        let mut i: usize = 0;
        while i < n
            invariant
                n == self.offsets@.len(),
                i <= n,
                buf@ == self.data@ + offsets_bytes(self.offsets@.subrange(0, i as int)),
            decreases n - i,
        {
            put_u16(&mut buf, self.offsets[i]);
            proof {
                let a = self.offsets@.subrange(0, i as int);
                let b = self.offsets@.subrange(0, i + 1);
                assert(offsets_bytes(b) =~= offsets_bytes(a) + be16(self.offsets@[i as int]));
                assert(buf@ =~= self.data@ + offsets_bytes(b));
            }
            i += 1;
        }
        assert(self.offsets@.subrange(0, n as int) =~= self.offsets@);
        put_u16(&mut buf, n as u16);
        freeze(buf)
    }

    /// Decodes a block from its persisted form. The bytes must hold their
    /// count and the offsets it announces; nothing else is looked at.
    pub fn decode(data: &[u8]) -> (block: Block)
        requires
            framed(data@),
        ensures
            block.data@ == decoded_data(data@),
            block.offsets@ == decoded_offsets(data@),
    {
        let len = data.len();
        let n = get_u16(&data[len - 2..len]) as usize;
        let base = len - 2 - n * 2;
        let mut offsets: Vec<u16> = Vec::new();
        let mut i: usize = 0;
        while i < n
            invariant
                len == data@.len(),
                n == encoded_count(data@),
                base == len - 2 - 2 * n,
                framed(data@),
                i <= n,
                offsets@ == decoded_offsets(data@).subrange(0, i as int),
            decreases n - i,
        {
            let at = base + 2 * i;
            let offset = get_u16(&data[at..at + 2]);
            offsets.push(offset);
            assert(offsets@ =~= decoded_offsets(data@).subrange(0, i + 1));
            i += 1;
        }
        assert(offsets@ =~= decoded_offsets(data@));
        let body = slice_to_vec(&data[0..base]);
        Block { data: body, offsets }
    }

    /// Whether the offsets name entries that lie within the data.
    pub fn is_well_formed(&self) -> (ok: bool)
        ensures
            ok == self.wf(),
    {
        let n = self.offsets.len();
        let len = self.data.len();
        if n > 0xFFFF {
            return false;
        }
        let mut i: usize = 0;
        while i < n
            invariant
                n == self.offsets@.len(),
                len == self.data@.len(),
                n <= 0xFFFF,
                i <= n,
                forall|k: int| 0 <= k < i ==> entry_fits(self.data@, #[trigger] self.offsets@[k] as int),
                forall|k: int, j: int| 0 <= k < j < i ==> self.offsets@[k] < self.offsets@[j],
                i == n && n > 0 ==> entry_end_at(self.data@, self.offsets@.last() as int) == len,
            decreases n - i,
        {
            let off = self.offsets[i] as usize;
            if i > 0 && self.offsets[i - 1] >= self.offsets[i] {
                return false;
            }
            if off + 2 > len {
                assert(!entry_fits(self.data@, self.offsets@[i as int] as int));
                return false;
            }
            let key_len = get_u16(&self.data[off..off + 2]) as usize;
            if off + 2 + key_len + 2 > len {
                assert(!entry_fits(self.data@, self.offsets@[i as int] as int));
                return false;
            }
            let at = off + 2 + key_len;
            let value_len = get_u16(&self.data[at..at + 2]) as usize;
            let end = at + 2 + value_len;
            if end > len {
                assert(!entry_fits(self.data@, self.offsets@[i as int] as int));
                return false;
            }
            if i == n - 1 && end != len {
                return false;
            }
            i += 1;
        }
        true
    }

    /// Decodes a block from bytes of unknown origin, and refuses what would
    /// lead a reader out of bounds.
    pub fn try_decode(data: &[u8]) -> (r: Result<Block, DecodeError>)
        ensures
            match r {
                Ok(block) => {
                    &&& framed(data@)
                    &&& block.data@ == decoded_data(data@)
                    &&& block.offsets@ == decoded_offsets(data@)
                    &&& block.wf()
                },
                Err(DecodeError::Truncated) => !framed(data@),
                Err(DecodeError::Malformed) => framed(data@) && !layout_ok(
                    decoded_data(data@),
                    decoded_offsets(data@),
                ),
            },
    {
        let len = data.len();
        if len < 2 {
            return Err(DecodeError::Truncated);
        }
        let n = get_u16(&data[len - 2..len]) as usize;
        if n * 2 > len - 2 {
            return Err(DecodeError::Truncated);
        }
        let block = Block::decode(data);
        if block.is_well_formed() {
            Ok(block)
        } else {
            Err(DecodeError::Malformed)
        }
    }

    /// Decodes a block from a shared buffer, such as `encode` hands out, and
    /// refuses what `try_decode` refuses.
    pub fn try_decode_buffer(buf: &bytes::Bytes) -> (r: Result<Block, DecodeError>)
        ensures
            match r {
                Ok(block) => {
                    &&& framed(buffer_contents(*buf))
                    &&& block.data@ == decoded_data(buffer_contents(*buf))
                    &&& block.offsets@ == decoded_offsets(buffer_contents(*buf))
                    &&& block.wf()
                },
                Err(DecodeError::Truncated) => !framed(buffer_contents(*buf)),
                Err(DecodeError::Malformed) => framed(buffer_contents(*buf)) && !layout_ok(
                    decoded_data(buffer_contents(*buf)),
                    decoded_offsets(buffer_contents(*buf)),
                ),
            },
    {
        Block::try_decode(contents(buf))
    }
}

} // verus!
