use vstd::prelude::*;

verus! {

/// `bytes::Bytes`, the shared byte buffer that an encoded block is handed out
/// in. Nothing is known of a value of it but what `buffer_contents` names.
#[verifier::external_type_specification]
#[verifier::external_body]
pub struct ExBytes(bytes::Bytes);

/// The bytes that a `bytes::Bytes` holds, in order.
pub uninterp spec fn buffer_contents(b: bytes::Bytes) -> Seq<u8>;

/// The two bytes of `n`, most significant first.
pub open spec fn be16(n: u16) -> Seq<u8> {
    seq![(n / 256) as u8, (n % 256) as u8]
}

/// The number that the two bytes `hi`, `lo` spell, most significant first.
pub open spec fn be16_value(hi: u8, lo: u8) -> int {
    hi as int * 256 + lo as int
}

/// Reading back what `be16` wrote gives the number that went in.
pub proof fn lemma_be16_round_trip(n: u16)
    ensures
        be16(n).len() == 2,
        be16_value(be16(n)[0], be16(n)[1]) == n,
{
}

/// `bytes::BufMut::put_u16` on a `Vec<u8>`: the vector grows by the two bytes
/// of `n` in big-endian order and keeps what it held.
#[verifier::external_body]
pub(crate) fn put_u16(buf: &mut Vec<u8>, n: u16)
    ensures
        final(buf)@ == old(buf)@ + be16(n),
{
    bytes::BufMut::put_u16(buf, n);
}

/// `bytes::BufMut::put` on a `Vec<u8>` with a byte slice as the source: the
/// vector grows by the slice and keeps what it held.
#[verifier::external_body]
pub(crate) fn put_bytes(buf: &mut Vec<u8>, src: &[u8])
    ensures
        final(buf)@ == old(buf)@ + src@,
{
    bytes::BufMut::put(buf, src);
}

/// `bytes::Buf::get_u16` on a byte slice: the big-endian number in its first
/// two bytes. The call panics on a shorter slice, which `requires` leaves out.
#[verifier::external_body]
pub(crate) fn get_u16(src: &[u8]) -> (n: u16)
    requires
        src@.len() >= 2,
    ensures
        n == be16_value(src@[0], src@[1]),
{
    let mut cursor: &[u8] = src;
    bytes::Buf::get_u16(&mut cursor)
}

/// `bytes::Bytes::from` on a `Vec<u8>`: a shared buffer that holds the
/// vector's bytes.
#[verifier::external_body]
pub(crate) fn freeze(buf: Vec<u8>) -> (b: bytes::Bytes)
    ensures
        buffer_contents(b) == buf@,
{
    bytes::Bytes::from(buf)
}

/// `<bytes::Bytes as AsRef<[u8]>>::as_ref`: the bytes that the buffer holds,
/// as a slice.
#[verifier::external_body]
pub(crate) fn contents(buf: &bytes::Bytes) -> (s: &[u8])
    ensures
        s@ == buffer_contents(*buf),
{
    buf.as_ref()
}

} // verus!
