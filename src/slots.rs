use memmap::MmapMut;
use vstd::prelude::*;

verus! {

#[verifier::external_type_specification]
#[verifier::external_body]
pub struct ExMmapMut(memmap::MmapMut);

#[verifier::external_type_specification]
#[verifier::external_body]
pub struct ExIoError(std::io::Error);

#[verifier::external_type_specification]
#[verifier::external_body]
pub struct ExBytes(bytes::Bytes);

/// The bytes that a memory map holds.
pub uninterp spec fn map_bytes(m: MmapMut) -> Seq<u8>;

/// The bytes that a `Bytes` buffer holds.
pub uninterp spec fn bytes_content(b: bytes::Bytes) -> Seq<u8>;

/// Relies on MmapMut's `Deref` to `[u8]`: the number of mapped bytes.
#[verifier::external_body]
pub(crate) fn mapped_len(m: &MmapMut) -> (r: usize)
    ensures
        r == map_bytes(*m).len(),
{
    m.len()
}

/// Relies on MmapMut's `Deref` to `[u8]`: the mapped bytes in `[start, end)`,
/// borrowed for as long as the map.
#[verifier::external_body]
pub(crate) fn mapped_range<'a>(m: &'a MmapMut, start: usize, end: usize) -> (r: &'a [u8])
    requires
        start <= end <= map_bytes(*m).len(),
    ensures
        r@ == map_bytes(*m).subrange(start as int, end as int),
{
    &m[start..end]
}

/// Relies on MmapMut's `DerefMut` to `[u8]` and `copy_from_slice`: the bytes
/// from `start` on are replaced by `bytes`, the rest is kept.
#[verifier::external_body]
pub(crate) fn mapped_write(m: &mut MmapMut, start: usize, bytes: &[u8])
    requires
        start + bytes@.len() <= map_bytes(*old(m)).len(),
    ensures
        map_bytes(*final(m)) == map_bytes(*old(m)).subrange(0, start as int) + bytes@
            + map_bytes(*old(m)).subrange(
            start + bytes@.len(),
            map_bytes(*old(m)).len() as int,
        ),
    no_unwind
{
    m[start..][..bytes.len()].copy_from_slice(bytes)
}

/// Relies on MmapMut::flush: asks the OS to write the map's dirty pages to
/// the file and waits for it.
#[verifier::external_body]
pub(crate) fn mapped_flush(m: &MmapMut) -> (r: std::io::Result<()>) {
    m.flush()
}

/// Relies on bytes::Bytes::copy_from_slice: a buffer holding a copy of `data`.
#[verifier::external_body]
pub(crate) fn bytes_copied(data: &[u8]) -> (r: bytes::Bytes)
    ensures
        bytes_content(r) == data@,
{
    bytes::Bytes::copy_from_slice(data)
}

/// Relies on `From<Vec<u8>>` for bytes::Bytes: a buffer holding the vector's bytes.
#[verifier::external_body]
pub(crate) fn bytes_from_vec(v: Vec<u8>) -> (r: bytes::Bytes)
    ensures
        bytes_content(r) == v@,
{
    bytes::Bytes::from(v)
}

} // verus!
