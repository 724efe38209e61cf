use vstd::bytes::*;
use vstd::prelude::*;

verus! {

/// Size in bytes of one slot, and so of one encoded record.
pub const RECORD_SIZE: usize = 768;

/// The most value bytes that one record carries.
pub const MAX_RECORD_BODYLEN: usize = 728;

/// Offset of the derived key in a slot.
pub const KEY_OFFSET: usize = 4;

/// Offset of the length field in a slot.
pub const LENGTH_OFFSET: usize = 36;

/// Offset of the body in a slot.
pub const BODY_OFFSET: usize = 40;

/// The CRC-32 that crc32fast computes over some bytes.
pub uninterp spec fn crc32_of(bytes: Seq<u8>) -> u32;

/// The CRC-32 (ISO-HDLC parameters) that the crc crate computes over some bytes.
pub uninterp spec fn iso_hdlc_crc32_of(bytes: Seq<u8>) -> u32;

/// Relies on crc32fast::hash: the CRC-32 of the bytes, which depends on them alone.
#[verifier::external_body]
fn crc32fast_hash(bytes: &[u8]) -> (r: u32)
    ensures
        r == crc32_of(bytes@),
{
    crc32fast::hash(bytes)
}

/// Relies on crc::Crc::<u32>::checksum over the CRC_32_ISO_HDLC algorithm:
/// the CRC-32 of the bytes, which depends on them alone.
#[verifier::external_body]
fn iso_hdlc_checksum(bytes: &[u8]) -> (r: u32)
    ensures
        r == iso_hdlc_crc32_of(bytes@),
{
    crc::Crc::<u32>::new(&crc::CRC_32_ISO_HDLC).checksum(bytes)
}

/// The checksum stored in the first four bytes of a slot.
pub open spec fn stored_checksum(slot: Seq<u8>) -> u32 {
    spec_u32_from_le_bytes(slot.subrange(0, 4))
}

/// The bytes of a slot that its checksum covers: all after the checksum.
pub open spec fn checked_part(slot: Seq<u8>) -> Seq<u8> {
    slot.subrange(KEY_OFFSET as int, slot.len() as int)
}

/// A slot holds a valid record: its stored checksum is non-zero and equals
/// the checksum of the rest of the slot, as either CRC-32 implementation
/// computes it.
pub open spec fn is_valid_slot(slot: Seq<u8>) -> bool {
    let c = stored_checksum(slot);
    &&& c != 0
    &&& (c == crc32_of(checked_part(slot)) || c == iso_hdlc_crc32_of(checked_part(slot)))
}

/// The derived key that a slot names.
pub open spec fn slot_key(slot: Seq<u8>) -> Seq<u8> {
    slot.subrange(KEY_OFFSET as int, LENGTH_OFFSET as int)
}

/// The length field of a slot.
pub open spec fn slot_length(slot: Seq<u8>) -> u32 {
    spec_u32_from_le_bytes(slot.subrange(LENGTH_OFFSET as int, BODY_OFFSET as int))
}

/// How many body bytes are meaningful for a given length field.
pub open spec fn body_len(length: nat) -> nat {
    if length <= MAX_RECORD_BODYLEN {
        length
    } else {
        MAX_RECORD_BODYLEN as nat
    }
}

/// The meaningful body bytes of a slot.
pub open spec fn slot_body(slot: Seq<u8>) -> Seq<u8> {
    slot.subrange(BODY_OFFSET as int, BODY_OFFSET + body_len(slot_length(slot) as nat))
}

/// The checksummed part of an encoded record: key, length, body, then zero
/// padding up to the full body size.
pub open spec fn record_tail(key: Seq<u8>, length: u32, body: Seq<u8>) -> Seq<u8> {
    key + spec_u32_to_le_bytes(length) + body + Seq::new(
        (MAX_RECORD_BODYLEN - body.len()) as nat,
        |i: int| 0u8,
    )
}

/// An encoded record: the checksum of its tail, then the tail.
pub open spec fn encoded_record(key: Seq<u8>, length: u32, body: Seq<u8>) -> Seq<u8> {
    spec_u32_to_le_bytes(crc32_of(record_tail(key, length, body))) + record_tail(key, length, body)
}

/// Encodes a record for a derived key: `length` is the logical length (the
/// total length for the header of a chunked value) and `value` the body bytes
/// that the record carries. Body bytes past `value` are zero; the checksum is
/// computed last.
pub fn new_record(key: &[u8; 32], length: usize, value: &[u8]) -> (r: [u8; RECORD_SIZE])
    requires
        value@.len() <= length,
        value@.len() <= MAX_RECORD_BODYLEN,
        length <= u32::MAX,
    ensures
        r@ == encoded_record(key@, length as u32, value@),
{
    let mut dest = [0u8; RECORD_SIZE];
    let mut i: usize = 0;
    while i < 32
        invariant
            0 <= i <= 32,
            dest@.len() == RECORD_SIZE,
            forall|j: int| 0 <= j < KEY_OFFSET ==> dest@[j] == 0u8,
            forall|j: int| 0 <= j < i ==> dest@[KEY_OFFSET + j] == key@[j],
            forall|j: int| KEY_OFFSET + i <= j < RECORD_SIZE ==> dest@[j] == 0u8,
        decreases 32 - i,
    {
        dest[KEY_OFFSET + i] = key[i];
        i = i + 1;
    }
    let len_bytes = u32_to_le_bytes(length as u32);
    let mut i: usize = 0;
    while i < 4
        invariant
            0 <= i <= 4,
            len_bytes@ == spec_u32_to_le_bytes(length as u32),
            len_bytes@.len() == 4,
            dest@.len() == RECORD_SIZE,
            forall|j: int| 0 <= j < KEY_OFFSET ==> dest@[j] == 0u8,
            forall|j: int| 0 <= j < 32 ==> dest@[KEY_OFFSET + j] == key@[j],
            forall|j: int| 0 <= j < i ==> dest@[LENGTH_OFFSET + j] == len_bytes@[j],
            forall|j: int| LENGTH_OFFSET + i <= j < RECORD_SIZE ==> dest@[j] == 0u8,
        decreases 4 - i,
    {
        dest[LENGTH_OFFSET + i] = len_bytes[i];
        i = i + 1;
    }
    let mut i: usize = 0;
    while i < value.len()
        invariant
            0 <= i <= value@.len(),
            value@.len() <= MAX_RECORD_BODYLEN,
            len_bytes@ == spec_u32_to_le_bytes(length as u32),
            len_bytes@.len() == 4,
            dest@.len() == RECORD_SIZE,
            forall|j: int| 0 <= j < KEY_OFFSET ==> dest@[j] == 0u8,
            forall|j: int| 0 <= j < 32 ==> dest@[KEY_OFFSET + j] == key@[j],
            forall|j: int| 0 <= j < 4 ==> dest@[LENGTH_OFFSET + j] == len_bytes@[j],
            forall|j: int| 0 <= j < i ==> dest@[BODY_OFFSET + j] == value@[j],
            forall|j: int| BODY_OFFSET + i <= j < RECORD_SIZE ==> dest@[j] == 0u8,
        decreases value@.len() - i,
    {
        dest[BODY_OFFSET + i] = value[i];
        i = i + 1;
    }
    let ghost tail = record_tail(key@, length as u32, value@);
    assert(dest@.subrange(KEY_OFFSET as int, RECORD_SIZE as int) =~= tail);
    let chk = crc32fast_hash(&dest.as_slice()[KEY_OFFSET..RECORD_SIZE]);
    let chk_bytes = u32_to_le_bytes(chk);
    let mut i: usize = 0;
    while i < 4
        invariant
            0 <= i <= 4,
            chk_bytes@ == spec_u32_to_le_bytes(chk),
            chk_bytes@.len() == 4,
            dest@.len() == RECORD_SIZE,
            forall|j: int| 0 <= j < i ==> dest@[j] == chk_bytes@[j],
            dest@.subrange(KEY_OFFSET as int, RECORD_SIZE as int) == tail,
        decreases 4 - i,
    {
        proof {
            assert(dest@.subrange(KEY_OFFSET as int, RECORD_SIZE as int) =~= dest@.update(
                i as int,
                chk_bytes@[i as int],
            ).subrange(KEY_OFFSET as int, RECORD_SIZE as int));
        }
        dest[i] = chk_bytes[i];
        i = i + 1;
    }
    assert(dest@ =~= encoded_record(key@, length as u32, value@));
    dest
}

/// A record as it lies in a slot, borrowed from the slot's bytes.
pub struct Record<'a>(pub &'a [u8]);

impl<'a> Record<'a> {
    /// The borrowed bytes make up exactly one slot.
    pub open spec fn wf(&self) -> bool {
        self.0@.len() == RECORD_SIZE
    }

    /// The checksum stored in the record.
    fn checksum(&self) -> (r: u32)
        requires
            self.wf(),
        ensures
            r == stored_checksum(self.0@),
    {
        u32_from_le_bytes(&self.0[0..KEY_OFFSET])
    }

    /// The CRC-32 of the checksummed bytes, computed by the crc crate.
    fn legacy_crc32(&self) -> (r: u32)
        requires
            self.wf(),
        ensures
            r == iso_hdlc_crc32_of(checked_part(self.0@)),
    {
        iso_hdlc_checksum(&self.0[KEY_OFFSET..RECORD_SIZE])
    }

    /// The CRC-32 of the checksummed bytes, computed by crc32fast.
    fn new_crc32(&self) -> (r: u32)
        requires
            self.wf(),
        ensures
            r == crc32_of(checked_part(self.0@)),
    {
        crc32fast_hash(&self.0[KEY_OFFSET..RECORD_SIZE])
    }

    /// Keeps the record if its stored checksum is non-zero and matches the
    /// checksum of the rest of the slot; a free or corrupt slot gives `None`.
    pub fn validate(self) -> (r: Option<Self>)
        requires
            self.wf(),
        ensures
            r == (if is_valid_slot(self.0@) {
                Some(self)
            } else {
                None
            }),
    {
        let csum = self.checksum();
        if csum > 0 && (csum == self.new_crc32() || csum == self.legacy_crc32()) {
            Some(self)
        } else {
            None
        }
    }

    /// The derived key of the record.
    pub fn key(&self) -> (r: [u8; 32])
        requires
            self.wf(),
        ensures
            r@ == slot_key(self.0@),
    {
        let mut k = [0u8; 32];
        let mut i: usize = 0;
        while i < 32
            invariant
                0 <= i <= 32,
                self.wf(),
                k@.len() == 32,
                forall|j: int| 0 <= j < i ==> k@[j] == self.0@[KEY_OFFSET + j],
            decreases 32 - i,
        {
            k[i] = self.0[KEY_OFFSET + i];
            i = i + 1;
        }
        assert(k@ =~= slot_key(self.0@));
        k
    }

    /// Whether the record's derived key is `key`.
    pub fn has_key(&self, key: &[u8; 32]) -> (r: bool)
        requires
            self.wf(),
        ensures
            r == (slot_key(self.0@) == key@),
    {
        let mut i: usize = 0;
        while i < 32
            invariant
                0 <= i <= 32,
                self.wf(),
                key@.len() == 32,
                forall|j: int| 0 <= j < i ==> self.0@[KEY_OFFSET + j] == key@[j],
            decreases 32 - i,
        {
            if self.0[KEY_OFFSET + i] != key[i] {
                assert(slot_key(self.0@)[i as int] != key@[i as int]);
                return false;
            }
            i = i + 1;
        }
        assert(slot_key(self.0@) =~= key@);
        true
    }

    /// The length field of the record: the body length, or the total length
    /// of a chunked value for its header.
    pub fn length(&self) -> (r: usize)
        requires
            self.wf(),
        ensures
            r == slot_length(self.0@),
    {
        u32_from_le_bytes(&self.0[LENGTH_OFFSET..BODY_OFFSET]) as usize
    }

    /// The meaningful body bytes: as many as the length field says, and at
    /// most a full body.
    pub fn value(&self) -> (r: &'a [u8])
        requires
            self.wf(),
        ensures
            r@ == slot_body(self.0@),
    {
        let length = self.length();
        let v = &self.0[BODY_OFFSET..RECORD_SIZE];
        if v.len() > length {
            &v[0..length]
        } else {
            v
        }
    }
}

} // verus!
