use crate::keys::{atomic_key_of, chunk_key_of};
use crate::model::{
    atomic_insert, atomic_lookup, chunk_count, chunk_end, chunk_len, chunk_of, gathered, get_result,
    home_slot, insert_chunks, insert_result, found_slot, probe_end, probe_slot, slot_count_of, slot_of, stops_at,
    with_slot, PROBE_LIMIT,
};
use crate::record::{
    body_len, checked_part, encoded_record, is_valid_slot, record_tail, slot_body, slot_key,
    slot_length, stored_checksum, crc32_of, BODY_OFFSET, KEY_OFFSET, LENGTH_OFFSET,
    MAX_RECORD_BODYLEN, RECORD_SIZE,
};
use vstd::bytes::{lemma_auto_spec_u32_to_from_le_bytes, spec_u32_to_le_bytes};
use vstd::prelude::*;

verus! {

/// Replacing slot `w` changes that slot and no other.
pub proof fn lemma_with_slot(t: Seq<u8>, w: nat, rec: Seq<u8>)
    requires
        w < slot_count_of(t),
        rec.len() == RECORD_SIZE,
    ensures
        with_slot(t, w, rec).len() == t.len(),
        slot_count_of(with_slot(t, w, rec)) == slot_count_of(t),
        slot_of(with_slot(t, w, rec), w) == rec,
        forall|s: nat|
            s < slot_count_of(t) && s != w ==> #[trigger] slot_of(with_slot(t, w, rec), s)
                == slot_of(t, s),
{
    let t2 = with_slot(t, w, rec);
    let n = slot_count_of(t);
    vstd::arithmetic::div_mod::lemma_fundamental_div_mod(t.len() as int, RECORD_SIZE as int);
    vstd::arithmetic::mul::lemma_mul_inequality(w + 1int, n as int, RECORD_SIZE as int);
    assert(slot_of(t2, w) =~= rec);
    assert forall|s: nat| s < n && s != w implies #[trigger] slot_of(t2, s) == slot_of(t, s) by {
        vstd::arithmetic::mul::lemma_mul_inequality(s + 1int, n as int, RECORD_SIZE as int);
        if s < w {
            vstd::arithmetic::mul::lemma_mul_inequality(s + 1int, w as int, RECORD_SIZE as int);
        } else {
            vstd::arithmetic::mul::lemma_mul_inequality(w + 1int, s as int, RECORD_SIZE as int);
        }
        assert(slot_of(t2, s) =~= slot_of(t, s));
    }
}

/// Where probing from step `j` ends: every step before the end goes on, the
/// end stops; with no end, no step up to the limit stops.
pub proof fn lemma_probe_end_facts(t: Seq<u8>, dk: Seq<u8>, j: nat)
    ensures
        match probe_end(t, dk, j) {
            Some(e) => j <= e < PROBE_LIMIT && stops_at(t, dk, e) && forall|i: nat|
                j <= i < e ==> !#[trigger] stops_at(t, dk, i),
            None => forall|i: nat| j <= i < PROBE_LIMIT ==> !#[trigger] stops_at(t, dk, i),
        },
    decreases PROBE_LIMIT - j,
{
    if j < PROBE_LIMIT && !stops_at(t, dk, j) {
        lemma_probe_end_facts(t, dk, j + 1);
    }
}

/// Probing from step `j` ends at `e` when every step before `e` goes on and
/// `e` stops.
pub proof fn lemma_probe_end_at(t: Seq<u8>, dk: Seq<u8>, j: nat, e: nat)
    requires
        j <= e < PROBE_LIMIT,
        stops_at(t, dk, e),
        forall|i: nat| j <= i < e ==> !#[trigger] stops_at(t, dk, i),
    ensures
        probe_end(t, dk, j) == Some(e),
    decreases e - j,
{
    if j < e {
        lemma_probe_end_at(t, dk, j + 1, e);
    }
}

/// The fields of an encoded record: its checksum covers the tail, and it is
/// valid exactly when that checksum is non-zero.
pub proof fn lemma_encoded_fields(key: Seq<u8>, length: u32, body: Seq<u8>)
    requires
        key.len() == 32,
        body.len() <= MAX_RECORD_BODYLEN,
    ensures
        ({
            let r = encoded_record(key, length, body);
            &&& r.len() == RECORD_SIZE
            &&& checked_part(r) == record_tail(key, length, body)
            &&& stored_checksum(r) == crc32_of(record_tail(key, length, body))
            &&& slot_key(r) == key
            &&& slot_length(r) == length
            &&& slot_body(r) == (body + Seq::new(
                (MAX_RECORD_BODYLEN - body.len()) as nat,
                |i: int| 0u8,
            )).subrange(0, body_len(length as nat) as int)
            &&& is_valid_slot(r) <== crc32_of(record_tail(key, length, body)) != 0
        }),
{
    lemma_auto_spec_u32_to_from_le_bytes();
    let tail = record_tail(key, length, body);
    let c = crc32_of(tail);
    let r = encoded_record(key, length, body);
    assert(spec_u32_to_le_bytes(c).len() == 4);
    assert(spec_u32_to_le_bytes(length).len() == 4);
    assert(r.subrange(0, 4) =~= spec_u32_to_le_bytes(c));
    assert(checked_part(r) =~= tail);
    assert(slot_key(r) =~= key);
    assert(r.subrange(36, 40) =~= spec_u32_to_le_bytes(length));
    let padded = body + Seq::new((MAX_RECORD_BODYLEN - body.len()) as nat, |i: int| 0u8);
    assert(slot_body(r) =~= padded.subrange(0, body_len(length as nat) as int));
}

/// The slot that an insertion writes into, and what it writes there.
pub proof fn lemma_insert_shape(t: Seq<u8>, d: Seq<u8>, length: u32, body: Seq<u8>)
    requires
        t.len() >= RECORD_SIZE,
        atomic_insert(t, d, length, body) is Some,
    ensures
        ({
            let t2 = atomic_insert(t, d, length, body)->0;
            let e = probe_end(t, d, 0)->0;
            let w = probe_slot(d, slot_count_of(t), e);
            &&& probe_end(t, d, 0) is Some
            &&& w < slot_count_of(t)
            &&& is_valid_slot(slot_of(t, w)) ==> t2 == t
            &&& !is_valid_slot(slot_of(t, w)) ==> t2 == with_slot(
                t,
                w,
                encoded_record(d, length, body),
            )
        }),
{
    vstd::arithmetic::div_mod::lemma_fundamental_div_mod(t.len() as int, RECORD_SIZE as int);
}

/// A step of the probe sequence names a slot of the table.
pub proof fn lemma_probe_slot_bound(dk: Seq<u8>, n: nat, j: nat)
    requires
        n >= 1,
    ensures
        probe_slot(dk, n, j) < n,
{
}

/// An insertion keeps every record that a lookup reached before, in the
/// same slot, with the same bytes.
pub proof fn lemma_insert_keeps_found(t: Seq<u8>, d: Seq<u8>, length: u32, body: Seq<u8>, dk: Seq<u8>)
    requires
        t.len() >= RECORD_SIZE,
        d.len() == 32,
        body.len() <= MAX_RECORD_BODYLEN,
        atomic_insert(t, d, length, body) is Some,
        found_slot(t, dk) is Some,
    ensures
        ({
            let t2 = atomic_insert(t, d, length, body)->0;
            let s = found_slot(t, dk)->0;
            &&& t2.len() == t.len()
            &&& found_slot(t2, dk) == Some(s)
            &&& slot_of(t2, s) == slot_of(t, s)
        }),
{
    let t2 = atomic_insert(t, d, length, body)->0;
    let n = slot_count_of(t);
    lemma_insert_shape(t, d, length, body);
    if t2 != t {
        let w = probe_slot(d, n, probe_end(t, d, 0)->0);
        let rec = encoded_record(d, length, body);
        lemma_encoded_fields(d, length, body);
        lemma_with_slot(t, w, rec);
        lemma_probe_end_facts(t, dk, 0);
        let e = probe_end(t, dk, 0)->0;
        assert forall|i: nat| 0 <= i <= e implies #[trigger] stops_at(t2, dk, i) == stops_at(
            t,
            dk,
            i,
        ) by {
            lemma_probe_slot_bound(dk, n, i);
            let p = probe_slot(dk, n, i);
            if i < e {
                assert(!stops_at(t, dk, i));
            }
            assert(p != w);
            assert(slot_of(t2, p) == slot_of(t, p));
        }
        lemma_probe_end_at(t2, dk, 0, e);
        lemma_probe_slot_bound(dk, n, e);
    }
}

/// After an insertion whose record has a non-zero checksum, a lookup of its
/// key reaches a record: the one written, or the one that was already there.
pub proof fn lemma_insert_finds(t: Seq<u8>, d: Seq<u8>, length: u32, body: Seq<u8>)
    requires
        t.len() >= RECORD_SIZE,
        d.len() == 32,
        body.len() <= MAX_RECORD_BODYLEN,
        atomic_insert(t, d, length, body) is Some,
        crc32_of(record_tail(d, length, body)) != 0,
    ensures
        ({
            let t2 = atomic_insert(t, d, length, body)->0;
            &&& t2.len() == t.len()
            &&& found_slot(t2, d) is Some
            &&& found_slot(t, d) is Some ==> t2 == t
            &&& found_slot(t, d) is None ==> slot_of(t2, found_slot(t2, d)->0) == encoded_record(
                d,
                length,
                body,
            )
        }),
{
    let t2 = atomic_insert(t, d, length, body)->0;
    let n = slot_count_of(t);
    lemma_insert_shape(t, d, length, body);
    let e = probe_end(t, d, 0)->0;
    let w = probe_slot(d, n, e);
    lemma_probe_end_facts(t, d, 0);
    if !is_valid_slot(slot_of(t, w)) {
        let rec = encoded_record(d, length, body);
        lemma_encoded_fields(d, length, body);
        lemma_with_slot(t, w, rec);
        assert forall|i: nat| 0 <= i < e implies !#[trigger] stops_at(t2, d, i) by {
            lemma_probe_slot_bound(d, n, i);
            let p = probe_slot(d, n, i);
            assert(!stops_at(t, d, i));
            assert(p != w);
            assert(slot_of(t2, p) == slot_of(t, p));
        }
        assert(stops_at(t2, d, e));
        lemma_probe_end_at(t2, d, 0, e);
    }
}

/// Every valid record in `t` under derived key `d` carries the length field
/// `length` and the meaningful body of a record of `body`.
pub open spec fn agrees(t: Seq<u8>, d: Seq<u8>, length: u32, body: Seq<u8>) -> bool {
    forall|s: nat|
        s < slot_count_of(t) && is_valid_slot(#[trigger] slot_of(t, s)) && slot_key(slot_of(t, s))
            == d ==> slot_length(slot_of(t, s)) == length && slot_body(slot_of(t, s)) == slot_body(
            encoded_record(d, length, body),
        )
}

/// An insertion keeps every agreement, but for a different record under the
/// key that it inserts.
pub proof fn lemma_insert_agrees(
    t: Seq<u8>,
    d: Seq<u8>,
    length: u32,
    body: Seq<u8>,
    d2: Seq<u8>,
    length2: u32,
    body2: Seq<u8>,
)
    requires
        t.len() >= RECORD_SIZE,
        d.len() == 32,
        body.len() <= MAX_RECORD_BODYLEN,
        atomic_insert(t, d, length, body) is Some,
        agrees(t, d2, length2, body2),
        d != d2 || (length == length2 && body == body2),
    ensures
        agrees(atomic_insert(t, d, length, body)->0, d2, length2, body2),
{
    let t2 = atomic_insert(t, d, length, body)->0;
    let n = slot_count_of(t);
    lemma_insert_shape(t, d, length, body);
    if t2 != t {
        let w = probe_slot(d, n, probe_end(t, d, 0)->0);
        let rec = encoded_record(d, length, body);
        lemma_encoded_fields(d, length, body);
        lemma_with_slot(t, w, rec);
    }
}

/// A lookup that reaches a record under an agreed key returns the agreed
/// length and body.
pub proof fn lemma_lookup_agrees(t: Seq<u8>, d: Seq<u8>, length: u32, body: Seq<u8>)
    requires
        t.len() >= RECORD_SIZE,
        agrees(t, d, length, body),
        found_slot(t, d) is Some,
    ensures
        atomic_lookup(t, d) == Some((slot_body(encoded_record(d, length, body)), length as nat)),
{
    vstd::arithmetic::div_mod::lemma_fundamental_div_mod(t.len() as int, RECORD_SIZE as int);
    let e = probe_end(t, d, 0)->0;
    lemma_probe_end_facts(t, d, 0);
    lemma_probe_slot_bound(d, slot_count_of(t), e);
}

/// Inserting a key that a lookup already reaches changes nothing.
pub proof fn lemma_insert_found_is_noop(t: Seq<u8>, d: Seq<u8>, length: u32, body: Seq<u8>)
    requires
        found_slot(t, d) is Some,
    ensures
        atomic_insert(t, d, length, body) == Some(t),
{
}

/// Decoding a valid slot and encoding its key, length field and meaningful
/// body again gives the slot back, but for the body bytes past the
/// meaningful ones, which come out zero. Where those are zero already and the
/// stored checksum is the crc32fast one, the slot comes back unchanged.
pub proof fn lemma_round_trip(s: Seq<u8>)
    requires
        s.len() == RECORD_SIZE,
        is_valid_slot(s),
    ensures
        ({
            let e = encoded_record(slot_key(s), slot_length(s), slot_body(s));
            let end = BODY_OFFSET + body_len(slot_length(s) as nat);
            &&& e.len() == RECORD_SIZE
            &&& slot_key(e) == slot_key(s)
            &&& slot_length(e) == slot_length(s)
            &&& slot_body(e) == slot_body(s)
            &&& e.subrange(KEY_OFFSET as int, end) == s.subrange(KEY_OFFSET as int, end)
            &&& forall|i: int| end <= i < RECORD_SIZE ==> e[i] == 0u8
            &&& (forall|i: int| end <= i < RECORD_SIZE ==> s[i] == 0u8) && stored_checksum(s)
                == crc32_of(checked_part(s)) ==> e == s
        }),
{
    lemma_auto_spec_u32_to_from_le_bytes();
    let key = slot_key(s);
    let length = slot_length(s);
    let body = slot_body(s);
    let bl = body_len(length as nat);
    let end = BODY_OFFSET + bl;
    let e = encoded_record(key, length, body);
    lemma_encoded_fields(key, length, body);
    let padded = body + Seq::new((MAX_RECORD_BODYLEN - body.len()) as nat, |i: int| 0u8);
    assert(padded.subrange(0, bl as int) =~= body);
    assert(spec_u32_to_le_bytes(length) =~= s.subrange(LENGTH_OFFSET as int, BODY_OFFSET as int));
    assert(e.subrange(KEY_OFFSET as int, end) =~= s.subrange(KEY_OFFSET as int, end));
    if (forall|i: int| end <= i < RECORD_SIZE ==> s[i] == 0u8) && stored_checksum(s) == crc32_of(
        checked_part(s),
    ) {
        assert(record_tail(key, length, body) =~= checked_part(s));
        assert(spec_u32_to_le_bytes(stored_checksum(s)) =~= s.subrange(0, 4));
        assert(e =~= s);
    }
}

/// A record, not longer than one body, under a caller key: a lookup of the
/// key after its insertion returns the value. This needs the insertion to
/// have succeeded, the derived key to be 32 bytes long, the record to carry a
/// non-zero checksum, and every record already stored under the derived key
/// to hold this value.
pub proof fn lemma_insert_then_get_short(t: Seq<u8>, k: Seq<u8>, v: Seq<u8>)
    requires
        t.len() >= RECORD_SIZE,
        v.len() <= MAX_RECORD_BODYLEN,
        atomic_key_of(k).len() == 32,
        insert_result(t, k, v).1,
        crc32_of(record_tail(atomic_key_of(k), v.len() as u32, v)) != 0,
        agrees(t, atomic_key_of(k), v.len() as u32, v),
    ensures
        get_result(insert_result(t, k, v).0, k) == Some(v),
{
    let ak = atomic_key_of(k);
    let len = v.len() as u32;
    let t2 = atomic_insert(t, ak, len, v)->0;
    lemma_insert_finds(t, ak, len, v);
    lemma_insert_agrees(t, ak, len, v, ak, len, v);
    lemma_lookup_agrees(t2, ak, len, v);
    lemma_encoded_fields(ak, len, v);
    let padded = v + Seq::new((MAX_RECORD_BODYLEN - v.len()) as nat, |i: int| 0u8);
    assert(padded.subrange(0, v.len() as int) =~= v);
}

/// A lookup stops at the first free or corrupt slot on its probe path: a
/// derived key whose probe sequence meets one before any record of its own is
/// not found, and neither is a caller key whose atomic key it is.
pub proof fn lemma_invalid_slot_ends_lookup(t: Seq<u8>, dk: Seq<u8>, j: nat)
    requires
        t.len() >= RECORD_SIZE,
        j < PROBE_LIMIT,
        !is_valid_slot(slot_of(t, probe_slot(dk, slot_count_of(t), j))),
        forall|i: nat|
            i < j ==> is_valid_slot(#[trigger] slot_of(t, probe_slot(dk, slot_count_of(t), i)))
                && slot_key(slot_of(t, probe_slot(dk, slot_count_of(t), i))) != dk,
    ensures
        atomic_lookup(t, dk) is None,
        forall|k: Seq<u8>| atomic_key_of(k) == dk ==> #[trigger] get_result(t, k) is None,
{
    assert forall|i: nat| 0 <= i < j implies !#[trigger] stops_at(t, dk, i) by {
        assert(is_valid_slot(slot_of(t, probe_slot(dk, slot_count_of(t), i))));
    }
    lemma_probe_end_at(t, dk, 0, j);
}

/// The probe sequence wraps around the end of the table: from the last slot
/// it goes on at slot 0. A key whose probing starts at the last slot, which
/// holds a record for another key, is placed in slot 0 when that is free.
pub proof fn lemma_probe_wraps(t: Seq<u8>, dk: Seq<u8>, length: u32, body: Seq<u8>)
    requires
        slot_count_of(t) >= 2,
        home_slot(dk, slot_count_of(t)) == slot_count_of(t) - 1,
        is_valid_slot(slot_of(t, (slot_count_of(t) - 1) as nat)),
        slot_key(slot_of(t, (slot_count_of(t) - 1) as nat)) != dk,
        !is_valid_slot(slot_of(t, 0)),
    ensures
        probe_slot(dk, slot_count_of(t), 1) == 0,
        atomic_insert(t, dk, length, body) == Some(with_slot(t, 0, encoded_record(dk, length, body))),
{
    let n = slot_count_of(t);
    assert(probe_slot(dk, n, 0) == n - 1) by {
        vstd::arithmetic::div_mod::lemma_small_mod((n - 1) as nat, n);
    }
    assert(probe_slot(dk, n, 1) == 0) by {
        vstd::arithmetic::div_mod::lemma_mod_self_0(n as int);
    }
    assert(!stops_at(t, dk, 0));
    assert(stops_at(t, dk, 1));
    lemma_probe_end_at(t, dk, 0, 1);
}

/// A value of exactly `c` full bodies, `c` at least two, is chunked, into
/// exactly `c` chunks of a full body each.
pub proof fn lemma_whole_chunks(c: nat)
    requires
        c >= 2,
    ensures
        c * MAX_RECORD_BODYLEN > MAX_RECORD_BODYLEN,
        chunk_count((c * MAX_RECORD_BODYLEN) as nat) == c,
        forall|i: nat| i < c ==> #[trigger] chunk_len((c * MAX_RECORD_BODYLEN) as nat, i) == MAX_RECORD_BODYLEN,
{
    let len = (c * MAX_RECORD_BODYLEN) as nat;
    assert(c * MAX_RECORD_BODYLEN > MAX_RECORD_BODYLEN) by (nonlinear_arith)
        requires
            c >= 2,
    ;
    assert(chunk_count(len) == c) by {
        vstd::arithmetic::div_mod::lemma_fundamental_div_mod_converse(
            len + MAX_RECORD_BODYLEN - 1,
            MAX_RECORD_BODYLEN as int,
            c as int,
            MAX_RECORD_BODYLEN - 1,
        );
    }
    assert forall|i: nat| i < c implies #[trigger] chunk_len(len, i) == MAX_RECORD_BODYLEN by {
        vstd::arithmetic::mul::lemma_mul_inequality(i + 1int, c as int, MAX_RECORD_BODYLEN as int);
        vstd::arithmetic::mul::lemma_mul_is_distributive_add_other_way(
            MAX_RECORD_BODYLEN as int,
            i as int,
            1,
        );
    }
}

/// The derived keys of caller key `k` for a value of `len` bytes are 32
/// bytes long, as digests are.
pub open spec fn derived_keys_wide(k: Seq<u8>, len: nat) -> bool {
    &&& atomic_key_of(k).len() == 32
    &&& forall|m: nat| m < chunk_count(len) ==> (#[trigger] chunk_key_of(k, m as u64)).len() == 32
}

/// The derived keys of caller key `k` for a chunked value of `len` bytes do
/// not collide: the header's and the chunks' are pairwise different.
pub open spec fn derived_keys_distinct(k: Seq<u8>, len: nat) -> bool {
    &&& forall|m: nat| m < chunk_count(len) ==> #[trigger] chunk_key_of(k, m as u64) != atomic_key_of(k)
    &&& forall|m1: nat, m2: nat|
        m1 < chunk_count(len) && m2 < chunk_count(len) && m1 != m2 ==> #[trigger] chunk_key_of(
            k,
            m1 as u64,
        ) != #[trigger] chunk_key_of(k, m2 as u64)
}

/// The record of chunk `m` of `v` carries a non-zero checksum.
pub open spec fn chunk_sealed(k: Seq<u8>, v: Seq<u8>, m: nat) -> bool {
    crc32_of(record_tail(chunk_key_of(k, m as u64), chunk_of(v, m).len() as u32, chunk_of(v, m)))
        != 0
}

/// Every record that inserting `v` under `k` writes carries a non-zero
/// checksum (a stored checksum of zero marks a free slot).
pub open spec fn records_sealed(k: Seq<u8>, v: Seq<u8>) -> bool {
    if v.len() <= MAX_RECORD_BODYLEN {
        crc32_of(record_tail(atomic_key_of(k), v.len() as u32, v)) != 0
    } else {
        &&& crc32_of(record_tail(atomic_key_of(k), v.len() as u32, Seq::empty())) != 0
        &&& forall|m: nat| m < chunk_count(v.len()) ==> #[trigger] chunk_sealed(k, v, m)
    }
}

/// Every record in `t` under the derived key of chunk `m` of `v` holds that chunk.
pub open spec fn chunk_agrees(t: Seq<u8>, k: Seq<u8>, v: Seq<u8>, m: nat) -> bool {
    agrees(t, chunk_key_of(k, m as u64), chunk_of(v, m).len() as u32, chunk_of(v, m))
}

/// Every record in `t` under one of the derived keys of `k` holds what
/// inserting `v` under `k` would write there: `k` was not inserted before
/// with another value.
pub open spec fn agrees_with(t: Seq<u8>, k: Seq<u8>, v: Seq<u8>) -> bool {
    if v.len() <= MAX_RECORD_BODYLEN {
        agrees(t, atomic_key_of(k), v.len() as u32, v)
    } else {
        &&& agrees(t, atomic_key_of(k), v.len() as u32, Seq::empty())
        &&& forall|m: nat| m < chunk_count(v.len()) ==> #[trigger] chunk_agrees(t, k, v, m)
    }
}

/// Chunk `m` of a value of `len` bytes starts inside the value and holds
/// between one byte and a full body.
pub proof fn lemma_chunk_bounds(len: nat, m: nat)
    requires
        m < chunk_count(len),
    ensures
        m * MAX_RECORD_BODYLEN < len,
        chunk_end(len, m) <= len,
        chunk_end(len, m) == m * MAX_RECORD_BODYLEN + chunk_len(len, m),
        0 < chunk_len(len, m) <= MAX_RECORD_BODYLEN,
{
    vstd::arithmetic::div_mod::lemma_fundamental_div_mod(
        len + MAX_RECORD_BODYLEN - 1,
        MAX_RECORD_BODYLEN as int,
    );
    vstd::arithmetic::mul::lemma_mul_inequality(m + 1int, chunk_count(len) as int, MAX_RECORD_BODYLEN as int);
    vstd::arithmetic::mul::lemma_mul_is_distributive_add_other_way(MAX_RECORD_BODYLEN as int, m as int, 1);
}

/// Inserting chunks keeps every record that a lookup reached before.
proof fn lemma_chunks_keep_found(t: Seq<u8>, k: Seq<u8>, v: Seq<u8>, i: nat, dk: Seq<u8>)
    requires
        t.len() >= RECORD_SIZE,
        insert_chunks(t, k, v, i).1,
        derived_keys_wide(k, v.len()),
        found_slot(t, dk) is Some,
    ensures
        insert_chunks(t, k, v, i).0.len() == t.len(),
        found_slot(insert_chunks(t, k, v, i).0, dk) == found_slot(t, dk),
    decreases chunk_count(v.len()) - i,
{
    if i < chunk_count(v.len()) {
        let c = chunk_of(v, i);
        let ck = chunk_key_of(k, i as u64);
        lemma_chunk_bounds(v.len(), i);
        let t2 = atomic_insert(t, ck, c.len() as u32, c)->0;
        lemma_insert_keeps_found(t, ck, c.len() as u32, c, dk);
        lemma_chunks_keep_found(t2, k, v, i + 1, dk);
    }
}

/// Inserting chunks keeps every agreement that none of them contradicts.
proof fn lemma_chunks_keep_agreement(
    t: Seq<u8>,
    k: Seq<u8>,
    v: Seq<u8>,
    i: nat,
    d2: Seq<u8>,
    length2: u32,
    body2: Seq<u8>,
)
    requires
        t.len() >= RECORD_SIZE,
        insert_chunks(t, k, v, i).1,
        derived_keys_wide(k, v.len()),
        agrees(t, d2, length2, body2),
        forall|m: nat|
            i <= m < chunk_count(v.len()) ==> chunk_key_of(k, m as u64) != d2 || (
            #[trigger] chunk_of(v, m).len() == length2 && chunk_of(v, m) == body2),
    ensures
        agrees(insert_chunks(t, k, v, i).0, d2, length2, body2),
    decreases chunk_count(v.len()) - i,
{
    if i < chunk_count(v.len()) {
        let c = chunk_of(v, i);
        let ck = chunk_key_of(k, i as u64);
        lemma_chunk_bounds(v.len(), i);
        let t2 = atomic_insert(t, ck, c.len() as u32, c)->0;
        lemma_insert_shape(t, ck, c.len() as u32, c);
        lemma_insert_agrees(t, ck, c.len() as u32, c, d2, length2, body2);
        lemma_insert_keeps_length(t, ck, c.len() as u32, c);
        lemma_chunks_keep_agreement(t2, k, v, i + 1, d2, length2, body2);
    }
}

/// An insertion keeps the table's length.
proof fn lemma_insert_keeps_length(t: Seq<u8>, d: Seq<u8>, length: u32, body: Seq<u8>)
    requires
        t.len() >= RECORD_SIZE,
        d.len() == 32,
        body.len() <= MAX_RECORD_BODYLEN,
        atomic_insert(t, d, length, body) is Some,
    ensures
        atomic_insert(t, d, length, body)->0.len() == t.len(),
{
    lemma_insert_shape(t, d, length, body);
    let t2 = atomic_insert(t, d, length, body)->0;
    if t2 != t {
        lemma_encoded_fields(d, length, body);
        lemma_with_slot(t, probe_slot(d, slot_count_of(t), probe_end(t, d, 0)->0), encoded_record(d, length, body));
    }
}

/// After inserting chunks `i` onwards, a lookup reaches a record for each of
/// them whose record has a non-zero checksum.
proof fn lemma_chunks_found(t: Seq<u8>, k: Seq<u8>, v: Seq<u8>, i: nat, m: nat)
    requires
        t.len() >= RECORD_SIZE,
        insert_chunks(t, k, v, i).1,
        derived_keys_wide(k, v.len()),
        i <= m < chunk_count(v.len()),
        chunk_sealed(k, v, m),
    ensures
        found_slot(insert_chunks(t, k, v, i).0, chunk_key_of(k, m as u64)) is Some,
    decreases chunk_count(v.len()) - i,
{
    let c = chunk_of(v, i);
    let ck = chunk_key_of(k, i as u64);
    lemma_chunk_bounds(v.len(), i);
    let t2 = atomic_insert(t, ck, c.len() as u32, c)->0;
    lemma_insert_keeps_length(t, ck, c.len() as u32, c);
    if i == m {
        lemma_insert_finds(t, ck, c.len() as u32, c);
        lemma_chunks_keep_found(t2, k, v, i + 1, ck);
    } else {
        lemma_chunks_found(t2, k, v, i + 1, m);
    }
}

/// Where the first `n` chunks of a value of `len` bytes end.
pub open spec fn prefix_end(len: nat, n: nat) -> nat {
    if n == 0 {
        0
    } else {
        chunk_end(len, (n - 1) as nat)
    }
}

/// When a lookup of each of the first `n` chunk keys returns its chunk, they
/// put together the value's first `prefix_end` bytes.
proof fn lemma_gathered_prefix(t: Seq<u8>, k: Seq<u8>, v: Seq<u8>, n: nat)
    requires
        n <= chunk_count(v.len()),
        forall|m: nat|
            m < n ==> atomic_lookup(t, #[trigger] chunk_key_of(k, m as u64)) == Some(
                (chunk_of(v, m), chunk_len(v.len(), m)),
            ),
    ensures
        gathered(t, k, v.len(), n) == Some(v.subrange(0, prefix_end(v.len(), n) as int)),
    decreases n,
{
    if n > 0 {
        let p = (n - 1) as nat;
        lemma_gathered_prefix(t, k, v, p);
        lemma_chunk_bounds(v.len(), p);
        if p > 0 {
            lemma_chunk_bounds(v.len(), (p - 1) as nat);
        }
        assert(prefix_end(v.len(), p) == p * MAX_RECORD_BODYLEN) by {
            if p > 0 {
                vstd::arithmetic::mul::lemma_mul_is_distributive_add_other_way(
                    MAX_RECORD_BODYLEN as int,
                    (p - 1) as int,
                    1,
                );
            }
        }
        assert(atomic_lookup(t, chunk_key_of(k, p as u64)) == Some(
            (chunk_of(v, p), chunk_len(v.len(), p)),
        ));
        assert(v.subrange(0, prefix_end(v.len(), p) as int) + chunk_of(v, p) =~= v.subrange(
            0,
            prefix_end(v.len(), n) as int,
        ));
    }
}

/// All the chunks of a value put together are the value.
proof fn lemma_prefix_end_all(len: nat)
    requires
        len > 0,
    ensures
        prefix_end(len, chunk_count(len)) == len,
{
    let c = chunk_count(len);
    vstd::arithmetic::div_mod::lemma_fundamental_div_mod(
        len + MAX_RECORD_BODYLEN - 1,
        MAX_RECORD_BODYLEN as int,
    );
    assert(c >= 1);
    lemma_chunk_bounds(len, (c - 1) as nat);
    vstd::arithmetic::mul::lemma_mul_is_distributive_add_other_way(MAX_RECORD_BODYLEN as int, (c - 1) as int, 1);
}

/// A value of any length under a caller key: a lookup of the key after its
/// insertion returns the value. This needs the insertion to have succeeded,
/// the derived keys to be 32 bytes long and, for a chunked value, pairwise
/// different, every record written to carry a non-zero checksum, and every
/// record already stored under a derived key to hold what the insertion
/// would write there. The lookup reads the table's bytes alone, so a store
/// that is flushed and opened again on the same bytes returns the value too.
pub proof fn lemma_insert_then_get(t: Seq<u8>, k: Seq<u8>, v: Seq<u8>)
    requires
        t.len() >= RECORD_SIZE,
        v.len() <= u32::MAX,
        insert_result(t, k, v).1,
        derived_keys_wide(k, v.len()),
        v.len() > MAX_RECORD_BODYLEN ==> derived_keys_distinct(k, v.len()),
        records_sealed(k, v),
        agrees_with(t, k, v),
    ensures
        get_result(insert_result(t, k, v).0, k) == Some(v),
{
    if v.len() <= MAX_RECORD_BODYLEN {
        lemma_insert_then_get_short(t, k, v);
    } else {
        let ak = atomic_key_of(k);
        let len = v.len() as u32;
        let empty = Seq::<u8>::empty();
        let count = chunk_count(v.len());
        let t1 = atomic_insert(t, ak, len, empty)->0;
        lemma_insert_finds(t, ak, len, empty);
        lemma_insert_agrees(t, ak, len, empty, ak, len, empty);
        assert forall|m: nat| m < count implies #[trigger] chunk_agrees(t1, k, v, m) by {
            assert(chunk_agrees(t, k, v, m));
            assert(chunk_key_of(k, m as u64) != ak);
            lemma_chunk_bounds(v.len(), m);
            lemma_insert_agrees(
                t,
                ak,
                len,
                empty,
                chunk_key_of(k, m as u64),
                chunk_of(v, m).len() as u32,
                chunk_of(v, m),
            );
        }
        let fin = insert_chunks(t1, k, v, 0).0;
        lemma_chunks_keep_found(t1, k, v, 0, ak);
        assert forall|m: nat| 0 <= m < count implies chunk_key_of(k, m as u64) != ak || (
        #[trigger] chunk_of(v, m).len() == len && chunk_of(v, m) == empty) by {
            assert(chunk_key_of(k, m as u64) != ak);
        }
        lemma_chunks_keep_agreement(t1, k, v, 0, ak, len, empty);
        lemma_lookup_agrees(fin, ak, len, empty);
        lemma_encoded_fields(ak, len, empty);
        assert forall|m: nat| m < count implies atomic_lookup(
            fin,
            #[trigger] chunk_key_of(k, m as u64),
        ) == Some((chunk_of(v, m), chunk_len(v.len(), m))) by {
            let ck = chunk_key_of(k, m as u64);
            let c = chunk_of(v, m);
            lemma_chunk_bounds(v.len(), m);
            assert(chunk_sealed(k, v, m));
            lemma_chunks_found(t1, k, v, 0, m);
            assert(chunk_agrees(t1, k, v, m));
            assert forall|m2: nat| 0 <= m2 < count implies chunk_key_of(k, m2 as u64) != ck || (
            #[trigger] chunk_of(v, m2).len() == c.len() as u32 && chunk_of(v, m2) == c) by {
                if m2 != m {
                    assert(chunk_key_of(k, m2 as u64) != chunk_key_of(k, m as u64));
                }
            }
            lemma_chunks_keep_agreement(t1, k, v, 0, ck, c.len() as u32, c);
            lemma_lookup_agrees(fin, ck, c.len() as u32, c);
            lemma_encoded_fields(ck, c.len() as u32, c);
            let padded = c + Seq::new((MAX_RECORD_BODYLEN - c.len()) as nat, |i: int| 0u8);
            assert(padded.subrange(0, c.len() as int) =~= c);
        }
        lemma_gathered_prefix(fin, k, v, count);
        lemma_prefix_end_all(v.len());
        assert(v.subrange(0, v.len() as int) =~= v);
    }
}

/// With every step from `i` on reaching a record already, inserting the
/// chunks changes nothing.
proof fn lemma_chunks_noop(t: Seq<u8>, k: Seq<u8>, v: Seq<u8>, i: nat)
    requires
        forall|m: nat|
            i <= m < chunk_count(v.len()) ==> found_slot(t, #[trigger] chunk_key_of(k, m as u64)) is Some,
    ensures
        insert_chunks(t, k, v, i) == (t, true),
    decreases chunk_count(v.len()) - i,
{
    if i < chunk_count(v.len()) {
        assert(found_slot(t, chunk_key_of(k, i as u64)) is Some);
        lemma_chunks_noop(t, k, v, i + 1);
    }
}

/// Inserting the same value under the same key a second time changes nothing
/// and succeeds, once the first insertion has succeeded with every record it
/// wrote carrying a non-zero checksum.
pub proof fn lemma_insert_idempotent(t: Seq<u8>, k: Seq<u8>, v: Seq<u8>)
    requires
        t.len() >= RECORD_SIZE,
        v.len() <= u32::MAX,
        insert_result(t, k, v).1,
        derived_keys_wide(k, v.len()),
        records_sealed(k, v),
    ensures
        insert_result(insert_result(t, k, v).0, k, v) == (insert_result(t, k, v).0, true),
{
    let ak = atomic_key_of(k);
    let len = v.len() as u32;
    if v.len() <= MAX_RECORD_BODYLEN {
        lemma_insert_finds(t, ak, len, v);
    } else {
        let empty = Seq::<u8>::empty();
        let t1 = atomic_insert(t, ak, len, empty)->0;
        lemma_insert_finds(t, ak, len, empty);
        lemma_chunks_keep_found(t1, k, v, 0, ak);
        let fin = insert_chunks(t1, k, v, 0).0;
        assert forall|m: nat| 0 <= m < chunk_count(v.len()) implies found_slot(
            fin,
            #[trigger] chunk_key_of(k, m as u64),
        ) is Some by {
            assert(chunk_sealed(k, v, m));
            lemma_chunks_found(t1, k, v, 0, m);
        }
        lemma_chunks_noop(fin, k, v, 0);
    }
}

} // verus!
