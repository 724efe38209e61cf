use crate::keys::{atomic_key, atomic_key_of, chunk_key};
use crate::model::{
    atomic_insert, atomic_lookup, chunk_count, gathered, get_result,
    home_slot, insert_chunks, insert_result, probe_end, probe_slot, slot_count_of, slot_of,
    stops_at, with_slot, PROBE_LIMIT,
};
use crate::record::{new_record, Record, MAX_RECORD_BODYLEN, RECORD_SIZE};
use crate::slots::{
    bytes_content, bytes_copied, bytes_from_vec, map_bytes, mapped_flush, mapped_len,
    mapped_range, mapped_write,
};
use memmap::MmapMut;
use vstd::bytes::u64_from_le_bytes;
use vstd::prelude::*;

verus! {

/// Why an operation on the store failed.
#[derive(Debug)]
pub enum DbError {
    /// Every slot that an insertion probed holds a record for another key.
    Capacity,
    /// The operating system failed to write the map back to its file.
    Io(std::io::Error),
}

/// An append-only table of checksummed records in a memory map. Slot `s`
/// lies at byte `s * RECORD_SIZE`; a value is found by linear probing from
/// the slot that its derived key names.
pub struct Mapping {
    map: MmapMut,
}

impl View for Mapping {
    type V = Seq<u8>;

    /// The mapped bytes.
    closed spec fn view(&self) -> Seq<u8> {
        map_bytes(self.map)
    }
}

/// Slot `s` of a table with `len` bytes lies within them.
proof fn lemma_slot_in_bounds(s: nat, len: nat)
    requires
        s < len / (RECORD_SIZE as nat),
    ensures
        s * RECORD_SIZE + RECORD_SIZE <= len,
{
    vstd::arithmetic::div_mod::lemma_fundamental_div_mod(len as int, RECORD_SIZE as int);
    vstd::arithmetic::mul::lemma_mul_inequality(s + 1int, len as int / 768, 768int);
}

/// The slot where probing for `dk` starts in a table of `n` slots.
fn home(dk: &[u8; 32], n: usize) -> (r: usize)
    requires
        n > 0,
    ensures
        r == home_slot(dk@, n as nat),
        r < n,
{
    let low = u64_from_le_bytes(&dk.as_slice()[0..8]);
    (low % (n as u64)) as usize
}

/// Appends the bytes of `b` to `buf`.
fn append_bytes(buf: &mut Vec<u8>, b: &[u8])
    ensures
        final(buf)@ == old(buf)@ + b@,
{
    let mut i: usize = 0;
    while i < b.len()
        invariant
            0 <= i <= b@.len(),
            buf@ == old(buf)@ + b@.subrange(0, i as int),
        decreases b@.len() - i,
    {
        buf.push(b[i]);
        i = i + 1;
        assert(buf@ =~= old(buf)@ + b@.subrange(0, i as int));
    }
    assert(b@.subrange(0, b@.len() as int) =~= b@);
}


/// Once a chunk is missing, no longer prefix of the chunks can be put together.
proof fn lemma_gathered_stays_none(t: Seq<u8>, k: Seq<u8>, len: nat, n: nat, m: nat)
    requires
        n <= m,
        gathered(t, k, len, n) is None,
    ensures
        gathered(t, k, len, m) is None,
    decreases m - n,
{
    if n < m {
        lemma_gathered_stays_none(t, k, len, n, (m - 1) as nat);
    }
}

/// Where chunk `i` of a value of `len` bytes ends.
fn chunk_end_at(len: usize, i: usize) -> (r: usize)
    requires
        i < chunk_count(len as nat),
        len <= u32::MAX,
    ensures
        r == crate::model::chunk_end(len as nat, i as nat),
        i * MAX_RECORD_BODYLEN <= r <= len,
{
    proof {
        vstd::arithmetic::div_mod::lemma_div_is_ordered(
            len + MAX_RECORD_BODYLEN - 1,
            u32::MAX + MAX_RECORD_BODYLEN - 1,
            MAX_RECORD_BODYLEN as int,
        );
        assert((i + 1) * MAX_RECORD_BODYLEN <= 5899682 * MAX_RECORD_BODYLEN) by (nonlinear_arith)
            requires
                i < 5899682,
        ;
    }
    let end = (i as u64 + 1) * (MAX_RECORD_BODYLEN as u64);
    if end <= len as u64 {
        end as usize
    } else {
        len
    }
}

/// How many chunks a value of `len` bytes is split into.
fn chunk_count_of(len: usize) -> (r: usize)
    requires
        len <= u32::MAX,
    ensures
        r == chunk_count(len as nat),
{
    ((len as u64 + (MAX_RECORD_BODYLEN as u64 - 1)) / (MAX_RECORD_BODYLEN as u64)) as usize
}

impl Mapping {
    #[verifier::type_invariant]
    closed spec fn inv(self) -> bool {
        RECORD_SIZE <= map_bytes(self.map).len() <= usize::MAX
    }

    /// Takes a memory map as the store's table. `None` when the map is too
    /// short to hold one slot.
    pub fn new(map: MmapMut) -> (r: Option<Mapping>)
        ensures
            match r {
                Some(m) => m@ == map_bytes(map),
                None => map_bytes(map).len() < RECORD_SIZE,
            },
    {
        if mapped_len(&map) < RECORD_SIZE {
            None
        } else {
            Some(Mapping { map })
        }
    }

    /// Gives the memory map back.
    pub fn into_map(self) -> (r: MmapMut)
        ensures
            map_bytes(r) == self@,
    {
        self.map
    }

    /// The number of slots in the table.
    pub fn slot_count(&self) -> (r: usize)
        ensures
            r == slot_count_of(self@),
            r >= 1,
            r + PROBE_LIMIT <= usize::MAX,
    {
        proof {
            use_type_invariant(self);
            vstd::arithmetic::div_mod::lemma_fundamental_div_mod(
                self@.len() as int,
                RECORD_SIZE as int,
            );
        }
        mapped_len(&self.map) / RECORD_SIZE
    }

    /// The record in slot `s`, borrowed from the map.
    pub fn read_slot(&self, s: usize) -> (r: Record<'_>)
        requires
            s < slot_count_of(self@),
        ensures
            r.wf(),
            r.0@ == slot_of(self@, s as nat),
    {
        proof {
            use_type_invariant(self);
            lemma_slot_in_bounds(s as nat, self@.len());
        }
        let offset = s * RECORD_SIZE;
        Record(mapped_range(&self.map, offset, offset + RECORD_SIZE))
    }

    /// Overwrites slot `s` with an encoded record.
    fn write_slot(&mut self, s: usize, rec: &[u8; RECORD_SIZE])
        requires
            s < slot_count_of(old(self)@),
        ensures
            final(self)@ == with_slot(old(self)@, s as nat, rec@),
    {
        proof {
            use_type_invariant(&*self);
            lemma_slot_in_bounds(s as nat, self@.len());
        }
        mapped_write(&mut self.map, s * RECORD_SIZE, rec.as_slice());
    }

    /// Looks up a derived key: the body of its record, borrowed from the map,
    /// and the record's length field. Probing stops at the first free or
    /// corrupt slot, at the record for the key, or at the probe limit.
    pub fn get_atomic(&self, dk: &[u8; 32]) -> (r: Option<(&[u8], usize)>)
        ensures
            match r {
                Some((b, l)) => atomic_lookup(self@, dk@) == Some((b@, l as nat)),
                None => atomic_lookup(self@, dk@) is None,
            },
    {
        let n = self.slot_count();
        let h = home(dk, n);
        let mut j: usize = 0;
        while j < PROBE_LIMIT
            invariant
                0 <= j <= PROBE_LIMIT,
                n == slot_count_of(self@),
                n + PROBE_LIMIT <= usize::MAX,
                n >= 1,
                h == home_slot(dk@, n as nat),
                h < n,
                probe_end(self@, dk@, 0) == probe_end(self@, dk@, j as nat),
            decreases PROBE_LIMIT - j,
        {
            let s = (h + j) % n;
            assert(s == probe_slot(dk@, n as nat, j as nat));
            let rec = self.read_slot(s);
            match rec.validate() {
                None => {
                    assert(stops_at(self@, dk@, j as nat));
                    return None;
                },
                Some(rec) => {
                    if rec.has_key(dk) {
                        assert(stops_at(self@, dk@, j as nat));
                        return Some((rec.value(), rec.length()));
                    }
                },
            }
            j = j + 1;
        }
        None
    }

    /// Inserts a record for a derived key: `value` is its body and
    /// `value_length`, when given, its length field (the total length for
    /// the header of a chunked value). The record goes into the first free
    /// or corrupt slot of the probe sequence; a record already there for the
    /// key makes this a no-op. Fails when the probe limit is reached first.
    pub fn insert_atomic(&mut self, dk: &[u8; 32], value: &[u8], value_length: Option<usize>) -> (r:
        Result<(), DbError>)
        requires
            value@.len() <= MAX_RECORD_BODYLEN,
            match value_length {
                Some(l) => value@.len() <= l <= u32::MAX,
                None => true,
            },
        ensures
            ({
                let length = match value_length {
                    Some(l) => l as u32,
                    None => value@.len() as u32,
                };
                match atomic_insert(old(self)@, dk@, length, value@) {
                    Some(t) => r is Ok && final(self)@ == t,
                    None => r matches Err(DbError::Capacity) && final(self)@ == old(self)@,
                }
            }),
    {
        let length = match value_length {
            Some(l) => l,
            None => value.len(),
        };
        let n = self.slot_count();
        let h = home(dk, n);
        let mut j: usize = 0;
        while j < PROBE_LIMIT
            invariant
                0 <= j <= PROBE_LIMIT,
                value@.len() <= length,
                value@.len() <= MAX_RECORD_BODYLEN,
                length <= u32::MAX,
                length == match value_length {
                    Some(l) => l,
                    None => value@.len() as usize,
                },
                self@ == old(self)@,
                n == slot_count_of(self@),
                n + PROBE_LIMIT <= usize::MAX,
                n >= 1,
                h == home_slot(dk@, n as nat),
                h < n,
                probe_end(self@, dk@, 0) == probe_end(self@, dk@, j as nat),
            decreases PROBE_LIMIT - j,
        {
            let s = (h + j) % n;
            assert(s == probe_slot(dk@, n as nat, j as nat));
            let (valid, same_key) = {
                let rec = self.read_slot(s);
                match rec.validate() {
                    Some(rec) => (true, rec.has_key(dk)),
                    None => (false, false),
                }
            };
            if !valid {
                assert(stops_at(self@, dk@, j as nat));
                let rec = new_record(dk, length, value);
                self.write_slot(s, &rec);
                return Ok(());
            }
            if same_key {
                assert(stops_at(self@, dk@, j as nat));
                return Ok(());
            }
            j = j + 1;
        }
        Err(DbError::Capacity)
    }

    /// Looks up a caller key. A value that fits in one record is returned
    /// from its record; for a chunked value the header gives the total length
    /// and the chunks are looked up in turn and put together. `None` when the
    /// key, or one of its chunks, is not found, or a chunk has the wrong length.
    pub fn get(&self, key: [u8; 32]) -> (r: Option<bytes::Bytes>)
        ensures
            match r {
                Some(b) => get_result(self@, key@) == Some(bytes_content(b)),
                None => get_result(self@, key@) is None,
            },
    {
        let ak = atomic_key(&key);
        let (top, top_length) = match self.get_atomic(&ak) {
            Some(found) => found,
            None => return None,
        };
        if top_length <= MAX_RECORD_BODYLEN {
            return Some(bytes_copied(top));
        }
        let count = chunk_count_of(top_length);
        let mut buf: Vec<u8> = Vec::new();
        let mut i: usize = 0;
        while i < count
            invariant
                0 <= i <= count,
                count == chunk_count(top_length as nat),
                top_length <= u32::MAX,
                top_length > MAX_RECORD_BODYLEN,
                atomic_lookup(self@, atomic_key_of(key@)) == Some((top@, top_length as nat)),
                gathered(self@, key@, top_length as nat, i as nat) == Some(buf@),
            decreases count - i,
        {
            let ck = chunk_key(&key, i as u64);
            let expected = chunk_end_at(top_length, i) - i * MAX_RECORD_BODYLEN;
            match self.get_atomic(&ck) {
                Some((b, _)) => {
                    if b.len() != expected {
                        proof {
                            lemma_gathered_stays_none(
                                self@,
                                key@,
                                top_length as nat,
                                (i + 1) as nat,
                                count as nat,
                            );
                        }
                        return None;
                    }
                    append_bytes(&mut buf, b);
                },
                None => {
                    proof {
                        lemma_gathered_stays_none(
                            self@,
                            key@,
                            top_length as nat,
                            (i + 1) as nat,
                            count as nat,
                        );
                    }
                    return None;
                },
            }
            i = i + 1;
        }
        Some(bytes_from_vec(buf))
    }

    /// Inserts a value under a caller key. A value of at most
    /// `MAX_RECORD_BODYLEN` bytes goes into one record under the key's atomic
    /// key; a longer one into a header record, which carries the total length
    /// and an empty body, then one record per chunk under the chunk keys.
    /// Stops at the first record that finds no place, with the records placed
    /// so far kept.
    pub fn insert(&mut self, key: [u8; 32], value: &[u8]) -> (r: Result<(), DbError>)
        requires
            value@.len() <= u32::MAX,
        ensures
            insert_result(old(self)@, key@, value@) == (final(self)@, r is Ok),
            r is Err ==> r matches Err(DbError::Capacity),
    {
        let ak = atomic_key(&key);
        if value.len() <= MAX_RECORD_BODYLEN {
            return self.insert_atomic(&ak, value, None);
        }
        let r = self.insert_atomic(&ak, &value[0..0], Some(value.len()));
        if r.is_err() {
            return r;
        }
        assert(value@.subrange(0, 0) =~= Seq::<u8>::empty());
        let len = value.len();
        let count = chunk_count_of(len);
        let mut i: usize = 0;
        while i < count
            invariant
                0 <= i <= count,
                len == value@.len(),
                len <= u32::MAX,
                count == chunk_count(len as nat),
                insert_chunks(self@, key@, value@, i as nat) == insert_result(
                    old(self)@,
                    key@,
                    value@,
                ),
            decreases count - i,
        {
            let ck = chunk_key(&key, i as u64);
            let end = chunk_end_at(len, i);
            let chunk = &value[i * MAX_RECORD_BODYLEN..end];
            let r = self.insert_atomic(&ck, chunk, None);
            if r.is_err() {
                return r;
            }
            i = i + 1;
        }
        Ok(())
    }

    /// Asks the OS to write the map's dirty pages back to the file, and waits
    /// until it has.
    pub fn flush(&self) -> (r: Result<(), DbError>)
        ensures
            r is Err ==> r matches Err(DbError::Io(_)),
    {
        match mapped_flush(&self.map) {
            Ok(()) => Ok(()),
            Err(e) => Err(DbError::Io(e)),
        }
    }
}

} // verus!
