use crate::keys::chunk_key_of;
use crate::keys::atomic_key_of;
use crate::record::{encoded_record, is_valid_slot, slot_body, slot_key, slot_length, MAX_RECORD_BODYLEN, RECORD_SIZE};
use vstd::bytes::*;
use vstd::prelude::*;

verus! {

/// The most probe steps that a lookup or an insertion takes.
pub const PROBE_LIMIT: usize = 10000;

/// The number of whole slots in a table's bytes.
pub open spec fn slot_count_of(t: Seq<u8>) -> nat {
    t.len() / (RECORD_SIZE as nat)
}

/// The bytes of slot `s`.
pub open spec fn slot_of(t: Seq<u8>, s: nat) -> Seq<u8> {
    t.subrange(s * RECORD_SIZE, s * RECORD_SIZE + RECORD_SIZE)
}

/// The table's bytes with slot `s` replaced by `rec`.
pub open spec fn with_slot(t: Seq<u8>, s: nat, rec: Seq<u8>) -> Seq<u8> {
    t.subrange(0, s * RECORD_SIZE) + rec + t.subrange(s * RECORD_SIZE + RECORD_SIZE, t.len() as int)
}

/// The low 64 bits of a derived key, read little-endian.
pub open spec fn low64(dk: Seq<u8>) -> u64 {
    spec_u64_from_le_bytes(dk.subrange(0, 8))
}

/// The slot where the probe sequence of a derived key starts.
pub open spec fn home_slot(dk: Seq<u8>, n: nat) -> nat {
    (low64(dk) as nat) % n
}

/// The slot visited at step `j` of a derived key's probe sequence: linear
/// probing from the home slot, wrapping around the table.
pub open spec fn probe_slot(dk: Seq<u8>, n: nat, j: nat) -> nat {
    (home_slot(dk, n) + j) % n
}

/// Probing for `dk` stops at step `j`: the slot there is free or corrupt, or
/// holds a record for `dk`.
pub open spec fn stops_at(t: Seq<u8>, dk: Seq<u8>, j: nat) -> bool {
    let sl = slot_of(t, probe_slot(dk, slot_count_of(t), j));
    !is_valid_slot(sl) || slot_key(sl) == dk
}

/// The first step from `j` on where probing for `dk` stops, if any comes
/// before the probe limit.
pub open spec fn probe_end(t: Seq<u8>, dk: Seq<u8>, j: nat) -> Option<nat>
    decreases PROBE_LIMIT - j,
{
    if j >= PROBE_LIMIT {
        None
    } else if stops_at(t, dk, j) {
        Some(j)
    } else {
        probe_end(t, dk, j + 1)
    }
}

/// The slot that holds the record for `dk`, if a lookup reaches one.
pub open spec fn found_slot(t: Seq<u8>, dk: Seq<u8>) -> Option<nat> {
    match probe_end(t, dk, 0) {
        Some(j) => {
            let s = probe_slot(dk, slot_count_of(t), j);
            if is_valid_slot(slot_of(t, s)) {
                Some(s)
            } else {
                None
            }
        },
        None => None,
    }
}

/// What a lookup of a derived key returns: the record's meaningful body and
/// its length field.
pub open spec fn atomic_lookup(t: Seq<u8>, dk: Seq<u8>) -> Option<(Seq<u8>, nat)> {
    match found_slot(t, dk) {
        Some(s) => Some((slot_body(slot_of(t, s)), slot_length(slot_of(t, s)) as nat)),
        None => None,
    }
}

/// The table after inserting a record for a derived key, or `None` when the
/// probe limit is reached first. The record goes into the first free or
/// corrupt slot of the probe sequence; an existing record for the key makes
/// the insertion a no-op.
pub open spec fn atomic_insert(t: Seq<u8>, dk: Seq<u8>, length: u32, body: Seq<u8>) -> Option<
    Seq<u8>,
> {
    match probe_end(t, dk, 0) {
        Some(j) => {
            let s = probe_slot(dk, slot_count_of(t), j);
            if is_valid_slot(slot_of(t, s)) {
                Some(t)
            } else {
                Some(with_slot(t, s, encoded_record(dk, length, body)))
            }
        },
        None => None,
    }
}

/// How many chunks a value of `len` bytes is split into.
pub open spec fn chunk_count(len: nat) -> nat {
    ((len + MAX_RECORD_BODYLEN - 1) / (MAX_RECORD_BODYLEN as int)) as nat
}

/// Where chunk `i` of a value of `len` bytes ends.
pub open spec fn chunk_end(len: nat, i: nat) -> nat {
    if (i + 1) * MAX_RECORD_BODYLEN <= len {
        ((i + 1) * MAX_RECORD_BODYLEN) as nat
    } else {
        len
    }
}

/// Chunk `i` of a value: its `i`-th run of up to a full body of bytes.
pub open spec fn chunk_of(v: Seq<u8>, i: nat) -> Seq<u8> {
    v.subrange(i * MAX_RECORD_BODYLEN, chunk_end(v.len(), i) as int)
}

/// Inserts chunks `i` onwards of `v` under their chunk keys, stopping at the
/// first that finds no place. Gives the table and whether all were placed.
pub open spec fn insert_chunks(t: Seq<u8>, k: Seq<u8>, v: Seq<u8>, i: nat) -> (Seq<u8>, bool)
    decreases chunk_count(v.len()) - i,
{
    if i >= chunk_count(v.len()) {
        (t, true)
    } else {
        let c = chunk_of(v, i);
        match atomic_insert(t, chunk_key_of(k, i as u64), c.len() as u32, c) {
            Some(t2) => insert_chunks(t2, k, v, i + 1),
            None => (t, false),
        }
    }
}

/// Inserting value `v` under caller key `k`: the table afterwards, and whether
/// it succeeded. A value that fits in one record is stored under its atomic
/// key; a longer one as a header with the total length under the atomic key,
/// then its chunks.
pub open spec fn insert_result(t: Seq<u8>, k: Seq<u8>, v: Seq<u8>) -> (Seq<u8>, bool) {
    let ak = atomic_key_of(k);
    if v.len() <= MAX_RECORD_BODYLEN {
        match atomic_insert(t, ak, v.len() as u32, v) {
            Some(t2) => (t2, true),
            None => (t, false),
        }
    } else {
        match atomic_insert(t, ak, v.len() as u32, Seq::empty()) {
            Some(t2) => insert_chunks(t2, k, v, 0),
            None => (t, false),
        }
    }
}

/// The length of chunk `i` of a value of `len` bytes.
pub open spec fn chunk_len(len: nat, i: nat) -> nat {
    (chunk_end(len, i) - i * MAX_RECORD_BODYLEN) as nat
}

/// The first `n` chunks of a value of `len` bytes under caller key `k`, put
/// together, or `None` when one of them is missing or has the wrong length.
pub open spec fn gathered(t: Seq<u8>, k: Seq<u8>, len: nat, n: nat) -> Option<Seq<u8>>
    decreases n,
{
    if n == 0 {
        Some(Seq::empty())
    } else {
        match gathered(t, k, len, (n - 1) as nat) {
            Some(front) => match atomic_lookup(t, chunk_key_of(k, (n - 1) as u64)) {
                Some((b, _)) => if b.len() == chunk_len(len, (n - 1) as nat) {
                    Some(front + b)
                } else {
                    None
                },
                None => None,
            },
            None => None,
        }
    }
}

/// What a lookup of caller key `k` returns: the body of its atomic record, or
/// for a header the chunks put together.
pub open spec fn get_result(t: Seq<u8>, k: Seq<u8>) -> Option<Seq<u8>> {
    match atomic_lookup(t, atomic_key_of(k)) {
        Some((b, len)) => if len <= MAX_RECORD_BODYLEN {
            Some(b)
        } else {
            gathered(t, k, len, chunk_count(len))
        },
        None => None,
    }
}

} // verus!
