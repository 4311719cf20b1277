//! Key/length/value record codec. A record set maps a closed set of one-byte
//! protocol keys to opaque byte values; on the wire each record is one key
//! byte, one length byte, then the value bytes. Decoding never fails: it
//! stops silently when fewer than a whole record remains (trailing padding is
//! expected from the transport), skips records under unrecognized key bytes,
//! and keeps the first occurrence when a key repeats.

use vstd::prelude::*;
use vstd::string::StringSliceAdditionalSpecFns;

verus! {

/// The closed set of protocol record keys. Each is a single byte on the wire
/// (see `key_byte_spec`); byte values outside this set are skipped during
/// decoding, not rejected.
#[derive(Clone, Copy, PartialEq, Eq, Structural, Debug, Hash)]
pub enum TlvKey {
    MsgName,
    OperationNum,
    AmountInMinorCurrencyUnit,
    KeepaliveIntervalInSecs,
    OperationTimeoutInSecs,
    EventName,
    EventNum,
    ProductId,
    QrCodeData,
    TcpIpDestantion,
    OutgoingByteCounter,
    SimpleDataBlock,
    ConfirmableDataBlock,
    ProductName,
    PosManagementData,
    LocalTime,
    SysInfo,
    BankingReceipt,
    DisplayTimeInMs,
}

/// The wire byte of each key.
pub open spec fn key_byte_spec(k: TlvKey) -> u8 {
    match k {
        TlvKey::MsgName => 0x01,
        TlvKey::OperationNum => 0x03,
        TlvKey::AmountInMinorCurrencyUnit => 0x04,
        TlvKey::KeepaliveIntervalInSecs => 0x05,
        TlvKey::OperationTimeoutInSecs => 0x06,
        TlvKey::EventName => 0x07,
        TlvKey::EventNum => 0x08,
        TlvKey::ProductId => 0x09,
        TlvKey::QrCodeData => 0x0A,
        TlvKey::TcpIpDestantion => 0x0B,
        TlvKey::OutgoingByteCounter => 0x0C,
        TlvKey::SimpleDataBlock => 0x0D,
        TlvKey::ConfirmableDataBlock => 0x0E,
        TlvKey::ProductName => 0x0F,
        TlvKey::PosManagementData => 0x10,
        TlvKey::LocalTime => 0x11,
        TlvKey::SysInfo => 0x12,
        TlvKey::BankingReceipt => 0x13,
        TlvKey::DisplayTimeInMs => 0x14,
    }
}

pub fn key_byte(k: TlvKey) -> (b: u8)
    ensures
        b == key_byte_spec(k),
{
    match k {
        TlvKey::MsgName => 0x01,
        TlvKey::OperationNum => 0x03,
        TlvKey::AmountInMinorCurrencyUnit => 0x04,
        TlvKey::KeepaliveIntervalInSecs => 0x05,
        TlvKey::OperationTimeoutInSecs => 0x06,
        TlvKey::EventName => 0x07,
        TlvKey::EventNum => 0x08,
        TlvKey::ProductId => 0x09,
        TlvKey::QrCodeData => 0x0A,
        TlvKey::TcpIpDestantion => 0x0B,
        TlvKey::OutgoingByteCounter => 0x0C,
        TlvKey::SimpleDataBlock => 0x0D,
        TlvKey::ConfirmableDataBlock => 0x0E,
        TlvKey::ProductName => 0x0F,
        TlvKey::PosManagementData => 0x10,
        TlvKey::LocalTime => 0x11,
        TlvKey::SysInfo => 0x12,
        TlvKey::BankingReceipt => 0x13,
        TlvKey::DisplayTimeInMs => 0x14,
    }
}

/// The key a wire byte stands for, if any: the inverse of `key_byte_spec`.
pub open spec fn key_of_byte_spec(b: u8) -> Option<TlvKey> {
    if b == 0x01 {
        Some(TlvKey::MsgName)
    } else if b == 0x03 {
        Some(TlvKey::OperationNum)
    } else if b == 0x04 {
        Some(TlvKey::AmountInMinorCurrencyUnit)
    } else if b == 0x05 {
        Some(TlvKey::KeepaliveIntervalInSecs)
    } else if b == 0x06 {
        Some(TlvKey::OperationTimeoutInSecs)
    } else if b == 0x07 {
        Some(TlvKey::EventName)
    } else if b == 0x08 {
        Some(TlvKey::EventNum)
    } else if b == 0x09 {
        Some(TlvKey::ProductId)
    } else if b == 0x0A {
        Some(TlvKey::QrCodeData)
    } else if b == 0x0B {
        Some(TlvKey::TcpIpDestantion)
    } else if b == 0x0C {
        Some(TlvKey::OutgoingByteCounter)
    } else if b == 0x0D {
        Some(TlvKey::SimpleDataBlock)
    } else if b == 0x0E {
        Some(TlvKey::ConfirmableDataBlock)
    } else if b == 0x0F {
        Some(TlvKey::ProductName)
    } else if b == 0x10 {
        Some(TlvKey::PosManagementData)
    } else if b == 0x11 {
        Some(TlvKey::LocalTime)
    } else if b == 0x12 {
        Some(TlvKey::SysInfo)
    } else if b == 0x13 {
        Some(TlvKey::BankingReceipt)
    } else if b == 0x14 {
        Some(TlvKey::DisplayTimeInMs)
    } else {
        None
    }
}

pub fn key_of_byte(b: u8) -> (k: Option<TlvKey>)
    ensures
        k == key_of_byte_spec(b),
{
    if b == 0x01 {
        Some(TlvKey::MsgName)
    } else if b == 0x03 {
        Some(TlvKey::OperationNum)
    } else if b == 0x04 {
        Some(TlvKey::AmountInMinorCurrencyUnit)
    } else if b == 0x05 {
        Some(TlvKey::KeepaliveIntervalInSecs)
    } else if b == 0x06 {
        Some(TlvKey::OperationTimeoutInSecs)
    } else if b == 0x07 {
        Some(TlvKey::EventName)
    } else if b == 0x08 {
        Some(TlvKey::EventNum)
    } else if b == 0x09 {
        Some(TlvKey::ProductId)
    } else if b == 0x0A {
        Some(TlvKey::QrCodeData)
    } else if b == 0x0B {
        Some(TlvKey::TcpIpDestantion)
    } else if b == 0x0C {
        Some(TlvKey::OutgoingByteCounter)
    } else if b == 0x0D {
        Some(TlvKey::SimpleDataBlock)
    } else if b == 0x0E {
        Some(TlvKey::ConfirmableDataBlock)
    } else if b == 0x0F {
        Some(TlvKey::ProductName)
    } else if b == 0x10 {
        Some(TlvKey::PosManagementData)
    } else if b == 0x11 {
        Some(TlvKey::LocalTime)
    } else if b == 0x12 {
        Some(TlvKey::SysInfo)
    } else if b == 0x13 {
        Some(TlvKey::BankingReceipt)
    } else if b == 0x14 {
        Some(TlvKey::DisplayTimeInMs)
    } else {
        None
    }
}

/// Reading back the wire byte of a key gives the key.
pub proof fn lemma_key_byte_round_trip(k: TlvKey)
    ensures
        key_of_byte_spec(key_byte_spec(k)) == Some(k),
{
}

// ---------------------------------------------------------------------------
// Record entry sequences and their map reading.

/// Entry `i` of `rs` carries key `k`.
pub open spec fn keyed_at(rs: Seq<(TlvKey, Seq<u8>)>, k: TlvKey, i: int) -> bool {
    0 <= i < rs.len() && rs[i].0 == k
}

/// Some entry of `rs` carries key `k`.
pub open spec fn has_key(rs: Seq<(TlvKey, Seq<u8>)>, k: TlvKey) -> bool {
    exists|i: int| keyed_at(rs, k, i)
}

/// The mapping a record sequence denotes. Meaningful when keys are distinct;
/// the chosen witness index is then unique.
pub open spec fn map_of(rs: Seq<(TlvKey, Seq<u8>)>) -> Map<TlvKey, Seq<u8>> {
    Map::new(
        |k: TlvKey| has_key(rs, k),
        |k: TlvKey| rs[choose|i: int| keyed_at(rs, k, i)].1,
    )
}

/// No two entries carry the same key.
pub open spec fn distinct_keys(rs: Seq<(TlvKey, Seq<u8>)>) -> bool {
    forall|i: int, j: int| 0 <= i < j < rs.len() ==> (#[trigger] rs[i]).0 != (#[trigger] rs[j]).0
}

/// Every value fits behind a one-byte length.
pub open spec fn bounded_values(rs: Seq<(TlvKey, Seq<u8>)>) -> bool {
    forall|i: int| 0 <= i < rs.len() ==> (#[trigger] rs[i]).1.len() <= 255
}

proof fn lemma_map_of_at(rs: Seq<(TlvKey, Seq<u8>)>, k: TlvKey, i: int)
    requires
        distinct_keys(rs),
        keyed_at(rs, k, i),
    ensures
        map_of(rs).dom().contains(k),
        map_of(rs)[k] == rs[i].1,
{
    assert(has_key(rs, k));
    let j = choose|j: int| keyed_at(rs, k, j);
    if j != i {
        assert(rs[i].0 == rs[j].0);
        assert(false);
    }
}

proof fn lemma_map_of_push(rs: Seq<(TlvKey, Seq<u8>)>, k: TlvKey, v: Seq<u8>)
    requires
        distinct_keys(rs),
        !has_key(rs, k),
    ensures
        distinct_keys(rs.push((k, v))),
        map_of(rs.push((k, v))) =~= map_of(rs).insert(k, v),
{
    let rs2 = rs.push((k, v));
    assert forall|i: int, j: int| 0 <= i < j < rs2.len() implies (#[trigger] rs2[i]).0 != (
    #[trigger] rs2[j]).0 by {
        if j == rs.len() {
            if rs2[i].0 == k {
                assert(keyed_at(rs, k, i));
            }
        } else {
            assert(rs2[i] == rs[i]);
            assert(rs2[j] == rs[j]);
        }
    }
    assert(keyed_at(rs2, k, rs.len() as int));
    lemma_map_of_at(rs2, k, rs.len() as int);
    assert forall|key: TlvKey| #[trigger] has_key(rs, key) implies has_key(rs2, key)
        && map_of(rs2)[key] == map_of(rs)[key] by {
        let i = choose|i: int| keyed_at(rs, key, i);
        assert(keyed_at(rs2, key, i));
        lemma_map_of_at(rs, key, i);
        lemma_map_of_at(rs2, key, i);
    }
    assert forall|key: TlvKey| #[trigger] has_key(rs2, key) && key != k implies has_key(rs, key) by {
        let i = choose|i: int| keyed_at(rs2, key, i);
        assert(i < rs.len());
        assert(keyed_at(rs, key, i));
    }
}

proof fn lemma_map_of_remove(rs: Seq<(TlvKey, Seq<u8>)>, i: int)
    requires
        distinct_keys(rs),
        0 <= i < rs.len(),
    ensures
        distinct_keys(rs.remove(i)),
        bounded_values(rs) ==> bounded_values(rs.remove(i)),
        !has_key(rs.remove(i), rs[i].0),
        map_of(rs.remove(i)) =~= map_of(rs).remove(rs[i].0),
{
    let rs2 = rs.remove(i);
    let k = rs[i].0;
    assert forall|a: int, b: int| 0 <= a < b < rs2.len() implies (#[trigger] rs2[a]).0 != (
    #[trigger] rs2[b]).0 by {
        let a0: int = if a < i { a } else { a + 1 };
        let b0: int = if b < i { b } else { b + 1 };
        assert(rs2[a] == rs[a0]);
        assert(rs2[b] == rs[b0]);
    }
    if bounded_values(rs) {
        assert forall|a: int| 0 <= a < rs2.len() implies (#[trigger] rs2[a]).1.len() <= 255 by {
            let a0: int = if a < i { a } else { a + 1 };
            assert(rs2[a] == rs[a0]);
        }
    }
    assert forall|a: int| 0 <= a < rs2.len() implies (#[trigger] rs2[a]).0 != k by {
        let a0: int = if a < i { a } else { a + 1 };
        assert(rs2[a] == rs[a0]);
        if rs[a0].0 == k {
            assert(rs[a0].0 == rs[i].0);
            assert(a0 != i);
            assert(false);
        }
    }
    assert forall|key: TlvKey| #[trigger] has_key(rs2, key) implies has_key(rs, key) && key != k
        && map_of(rs2)[key] == map_of(rs)[key] by {
        let a = choose|a: int| keyed_at(rs2, key, a);
        let a0: int = if a < i { a } else { a + 1 };
        assert(rs2[a] == rs[a0]);
        assert(keyed_at(rs, key, a0));
        lemma_map_of_at(rs2, key, a);
        lemma_map_of_at(rs, key, a0);
    }
    assert forall|key: TlvKey| #[trigger] has_key(rs, key) && key != k implies has_key(rs2, key) by {
        let a = choose|a: int| keyed_at(rs, key, a);
        assert(a != i);
        let a2: int = if a < i { a } else { a - 1 };
        assert(rs2[a2] == rs[a]);
        assert(keyed_at(rs2, key, a2));
    }
}

// ---------------------------------------------------------------------------
// The wire form of record sequences.

/// One record on the wire: key byte, length byte, value bytes.
pub open spec fn encode_record(k: TlvKey, v: Seq<u8>) -> Seq<u8> {
    seq![key_byte_spec(k), v.len() as u8] + v
}

/// Records on the wire, in sequence order.
pub open spec fn encode_records(rs: Seq<(TlvKey, Seq<u8>)>) -> Seq<u8>
    decreases rs.len(),
{
    if rs.len() == 0 {
        Seq::empty()
    } else {
        encode_record(rs[0].0, rs[0].1) + encode_records(rs.drop_first())
    }
}

/// What decoding a byte stream adds to an already-decoded record set `acc`:
/// stop when fewer than two bytes remain or the declared length overruns the
/// buffer; skip unrecognized key bytes; keep the first occurrence of a key.
pub open spec fn decode_records(s: Seq<u8>, acc: Map<TlvKey, Seq<u8>>) -> Map<TlvKey, Seq<u8>>
    decreases s.len(),
{
    if s.len() < 2 {
        acc
    } else {
        let len = s[1] as int;
        if 2 + len > s.len() {
            acc
        } else {
            let acc2 = match key_of_byte_spec(s[0]) {
                Some(k) => if acc.dom().contains(k) {
                    acc
                } else {
                    acc.insert(k, s.subrange(2, 2 + len))
                },
                None => acc,
            };
            decode_records(s.skip(2 + len), acc2)
        }
    }
}

/// The record set a byte stream decodes to.
pub open spec fn decoded(s: Seq<u8>) -> Map<TlvKey, Seq<u8>> {
    decode_records(s, Map::empty())
}

/// The record set decoding accumulates over `acc`: entries of `rs` in order,
/// except under keys `acc` already holds.
pub open spec fn accumulate(rs: Seq<(TlvKey, Seq<u8>)>, acc: Map<TlvKey, Seq<u8>>) -> Map<
    TlvKey,
    Seq<u8>,
>
    decreases rs.len(),
{
    if rs.len() == 0 {
        acc
    } else {
        let acc2 = if acc.dom().contains(rs[0].0) {
            acc
        } else {
            acc.insert(rs[0].0, rs[0].1)
        };
        accumulate(rs.drop_first(), acc2)
    }
}

/// Decoding an encoded record sequence followed by any suffix accumulates
/// exactly those records, then goes on with the suffix.
pub proof fn lemma_decode_encode(rs: Seq<(TlvKey, Seq<u8>)>, suffix: Seq<u8>, acc: Map<
    TlvKey,
    Seq<u8>,
>)
    requires
        bounded_values(rs),
    ensures
        decode_records(encode_records(rs) + suffix, acc) == decode_records(
            suffix,
            accumulate(rs, acc),
        ),
    decreases rs.len(),
{
    if rs.len() == 0 {
        assert(encode_records(rs) + suffix =~= suffix);
    } else {
        let k = rs[0].0;
        let v = rs[0].1;
        let s = encode_records(rs) + suffix;
        let tail = encode_records(rs.drop_first()) + suffix;
        assert(rs[0] == (k, v));
        assert(v.len() <= 255);
        assert(s[0] == key_byte_spec(k));
        assert(s[1] == v.len() as u8);
        assert(s.len() == 2 + v.len() + tail.len());
        assert(s.subrange(2, 2 + v.len() as int) =~= v);
        assert(s.skip(2 + v.len() as int) =~= tail);
        lemma_key_byte_round_trip(k);
        assert forall|i: int| 0 <= i < rs.drop_first().len() implies (#[trigger] rs.drop_first()[i]).1.len()
            <= 255 by {
            assert(rs.drop_first()[i] == rs[i + 1]);
        }
        let acc2 = if acc.dom().contains(k) {
            acc
        } else {
            acc.insert(k, v)
        };
        lemma_decode_encode(rs.drop_first(), suffix, acc2);
        assert(decode_records(s, acc) == decode_records(tail, acc2));
    }
}

proof fn lemma_map_of_cons(rs: Seq<(TlvKey, Seq<u8>)>)
    requires
        distinct_keys(rs),
        rs.len() > 0,
    ensures
        distinct_keys(rs.drop_first()),
        !has_key(rs.drop_first(), rs[0].0),
        map_of(rs) =~= map_of(rs.drop_first()).insert(rs[0].0, rs[0].1),
{
    let rest = rs.drop_first();
    assert forall|a: int, b: int| 0 <= a < b < rest.len() implies (#[trigger] rest[a]).0 != (
    #[trigger] rest[b]).0 by {
        assert(rest[a] == rs[a + 1]);
        assert(rest[b] == rs[b + 1]);
    }
    if has_key(rest, rs[0].0) {
        let a = choose|a: int| keyed_at(rest, rs[0].0, a);
        assert(rest[a] == rs[a + 1]);
        assert(rs[a + 1].0 == rs[0].0);
        assert(false);
    }
    assert(keyed_at(rs, rs[0].0, 0));
    lemma_map_of_at(rs, rs[0].0, 0);
    assert forall|key: TlvKey| #[trigger] has_key(rest, key) implies has_key(rs, key)
        && map_of(rest)[key] == map_of(rs)[key] by {
        let a = choose|a: int| keyed_at(rest, key, a);
        assert(rest[a] == rs[a + 1]);
        assert(keyed_at(rs, key, a + 1));
        lemma_map_of_at(rest, key, a);
        lemma_map_of_at(rs, key, a + 1);
    }
    assert forall|key: TlvKey| #[trigger] has_key(rs, key) && key != rs[0].0 implies has_key(
        rest,
        key,
    ) by {
        let a = choose|a: int| keyed_at(rs, key, a);
        assert(a != 0);
        assert(rest[a - 1] == rs[a]);
        assert(keyed_at(rest, key, a - 1));
    }
}

/// Over distinct keys none of which `acc` holds, accumulation is plain map
/// union with `acc`.
proof fn lemma_accumulate_map_of(rs: Seq<(TlvKey, Seq<u8>)>, acc: Map<TlvKey, Seq<u8>>)
    requires
        distinct_keys(rs),
        forall|k: TlvKey| #[trigger] has_key(rs, k) ==> !acc.dom().contains(k),
    ensures
        accumulate(rs, acc) =~= map_of(rs).union_prefer_right(acc),
    decreases rs.len(),
{
    if rs.len() == 0 {
        assert forall|k: TlvKey| !(#[trigger] has_key(rs, k)) by {
            if has_key(rs, k) {
                let i = choose|i: int| keyed_at(rs, k, i);
            }
        }
        assert(accumulate(rs, acc) =~= map_of(rs).union_prefer_right(acc));
    } else {
        let k0 = rs[0].0;
        let v0 = rs[0].1;
        assert(keyed_at(rs, k0, 0));
        assert(has_key(rs, k0));
        let acc2 = acc.insert(k0, v0);
        lemma_map_of_cons(rs);
        let rest = rs.drop_first();
        assert forall|k: TlvKey| #[trigger] has_key(rest, k) implies !acc2.dom().contains(k) by {
            let a = choose|a: int| keyed_at(rest, k, a);
            assert(rest[a] == rs[a + 1]);
            assert(keyed_at(rs, k, a + 1));
            assert(has_key(rs, k));
        }
        lemma_accumulate_map_of(rest, acc2);
        assert(accumulate(rs, acc) == accumulate(rest, acc2));
        assert(accumulate(rs, acc) =~= map_of(rs).union_prefer_right(acc));
    }
}

/// A record under an unrecognized key byte is skipped whole: decoding goes on
/// behind it with nothing added.
pub proof fn lemma_unknown_key_skipped(k: u8, v: Seq<u8>, rest: Seq<u8>, acc: Map<TlvKey, Seq<u8>>)
    requires
        key_of_byte_spec(k) is None,
        v.len() <= 255,
    ensures
        decode_records(seq![k, v.len() as u8] + v + rest, acc) == decode_records(rest, acc),
{
    let s = seq![k, v.len() as u8] + v + rest;
    assert(s[0] == k);
    assert(s[1] == v.len() as u8);
    assert(s.len() == 2 + v.len() + rest.len());
    assert(s.skip(2 + v.len() as int) =~= rest);
}

/// When the same key heads two records in a row, the first value wins and the
/// second record is consumed without effect.
pub proof fn lemma_first_occurrence_wins(key: TlvKey, v1: Seq<u8>, v2: Seq<u8>)
    requires
        v1.len() <= 255,
        v2.len() <= 255,
    ensures
        decoded(encode_record(key, v1) + encode_record(key, v2)) == Map::<TlvKey, Seq<
            u8,
        >>::empty().insert(key, v1),
{
    let rs = seq![(key, v1), (key, v2)];
    assert(bounded_values(rs));
    assert(encode_records(rs) =~= encode_record(key, v1) + encode_record(key, v2)) by {
        assert(rs.drop_first() =~= seq![(key, v2)]);
        assert(rs.drop_first().drop_first() =~= Seq::<(TlvKey, Seq<u8>)>::empty());
        assert(encode_records(rs.drop_first().drop_first()) =~= Seq::<u8>::empty());
        assert(encode_records(rs.drop_first()) =~= encode_record(key, v2));
    }
    lemma_decode_encode(rs, Seq::empty(), Map::empty());
    assert(encode_records(rs) + Seq::<u8>::empty() =~= encode_records(rs));
    let m1 = Map::<TlvKey, Seq<u8>>::empty().insert(key, v1);
    assert(rs.drop_first() =~= seq![(key, v2)]);
    assert(accumulate(rs, Map::empty()) == accumulate(seq![(key, v2)], m1));
    assert(seq![(key, v2)].drop_first() =~= Seq::<(TlvKey, Seq<u8>)>::empty());
    assert(m1.dom().contains(key));
    assert(accumulate(seq![(key, v2)], m1) == accumulate(seq![(key, v2)].drop_first(), m1));
    assert(accumulate(Seq::<(TlvKey, Seq<u8>)>::empty(), m1) == m1);
}

/// Decoding a two-byte remainder adds at most one record, and that one with
/// an empty value: the stop rule leaves no room for value bytes.
pub proof fn lemma_decode_tail_two(s: Seq<u8>, acc: Map<TlvKey, Seq<u8>>)
    requires
        s.len() == 2,
    ensures
        forall|k: TlvKey|
            #[trigger] acc.dom().contains(k) ==> decode_records(s, acc).dom().contains(k)
                && decode_records(s, acc)[k] == acc[k],
        forall|k: TlvKey|
            #[trigger] decode_records(s, acc).dom().contains(k) ==> acc.dom().contains(k)
                || decode_records(s, acc)[k] == Seq::<u8>::empty(),
{
    if s[1] == 0 {
        assert(s.subrange(2, 2) =~= Seq::<u8>::empty());
        assert(s.skip(2) =~= Seq::<u8>::empty());
        let acc2 = match key_of_byte_spec(s[0]) {
            Some(k) => if acc.dom().contains(k) {
                acc
            } else {
                acc.insert(k, Seq::<u8>::empty())
            },
            None => acc,
        };
        assert(decode_records(s, acc) == decode_records(Seq::<u8>::empty(), acc2));
    }
}

// ---------------------------------------------------------------------------
// The record set held in memory.

/// A record set: a mapping from protocol keys to opaque byte values, keys
/// unique, every value at most 255 bytes (a record's length field is one
/// byte, so callers must never construct longer values). Viewed as a
/// `Map<TlvKey, Seq<u8>>`.
#[derive(Clone, Debug)]
pub struct Tlv {
    records: Vec<(TlvKey, Vec<u8>)>,
}

impl View for Tlv {
    type V = Map<TlvKey, Seq<u8>>;

    closed spec fn view(&self) -> Map<TlvKey, Seq<u8>> {
        map_of(self.entries())
    }
}

impl Tlv {
    /// The stored entries, with values as byte sequences.
    pub closed spec fn entries(self) -> Seq<(TlvKey, Seq<u8>)> {
        self.records@.map_values(|p: (TlvKey, Vec<u8>)| (p.0, p.1@))
    }

    /// Well-formed: keys unique, every value short enough for its one-byte
    /// length field. Constructors establish this and methods preserve it.
    pub closed spec fn wf(self) -> bool {
        distinct_keys(self.entries()) && bounded_values(self.entries())
    }

    /// The empty record set.
    pub fn new() -> (r: Tlv)
        ensures
            r.wf(),
            r@ == Map::<TlvKey, Seq<u8>>::empty(),
    {
        let r = Tlv { records: Vec::new() };
        proof {
            assert(r.entries() =~= Seq::<(TlvKey, Seq<u8>)>::empty());
            assert forall|k: TlvKey| !(#[trigger] has_key(r.entries(), k)) by {
                if has_key(r.entries(), k) {
                    let i = choose|i: int| keyed_at(r.entries(), k, i);
                }
            }
            assert(r@ =~= Map::<TlvKey, Seq<u8>>::empty());
        }
        r
    }

    /// Index of the entry holding `key`, if any.
    fn find_key(&self, key: TlvKey) -> (r: Option<usize>)
        ensures
            match r {
                Some(i) => keyed_at(self.entries(), key, i as int),
                None => !has_key(self.entries(), key),
            },
    {
        let mut i: usize = 0;
        let n = self.records.len();
        while i < n
            invariant
                n == self.records@.len(),
                i <= n,
                forall|j: int| 0 <= j < i ==> (#[trigger] self.entries()[j]).0 != key,
            decreases n - i,
        {
            let hit = self.records[i].0 == key;
            proof {
                assert(self.entries()[i as int].0 == self.records@[i as int].0);
            }
            if hit {
                return Some(i);
            }
            i = i + 1;
        }
        proof {
            if has_key(self.entries(), key) {
                let j = choose|j: int| keyed_at(self.entries(), key, j);
            }
        }
        None
    }

    /// The value stored under `key`, if any.
    pub fn get_bin(&self, key: TlvKey) -> (r: Option<&Vec<u8>>)
        requires
            self.wf(),
        ensures
            match r {
                Some(v) => self@.dom().contains(key) && self@[key] == v@,
                None => !self@.dom().contains(key),
            },
    {
        match self.find_key(key) {
            Some(i) => {
                proof {
                    lemma_map_of_at(self.entries(), key, i as int);
                    assert(self.entries()[i as int].1 == self.records@[i as int].1@);
                }
                Some(&self.records[i].1)
            },
            None => None,
        }
    }

    /// Stores `data` under `key`, replacing any earlier value there.
    pub fn set_bin(&mut self, key: TlvKey, data: &[u8])
        requires
            old(self).wf(),
            data@.len() <= 255,
        ensures
            final(self).wf(),
            final(self)@ == old(self)@.insert(key, data@),
    {
        let v = vstd::slice::slice_to_vec(data);
        let ghost rs0 = self.entries();
        match self.find_key(key) {
            Some(i) => {
                let _ = self.records.remove(i);
                proof {
                    assert(self.entries() =~= rs0.remove(i as int));
                    lemma_map_of_remove(rs0, i as int);
                }
                let ghost rs1 = self.entries();
                self.records.push((key, v));
                proof {
                    assert(self.entries() =~= rs1.push((key, v@)));
                    lemma_map_of_push(rs1, key, v@);
                    assert(bounded_values(self.entries())) by {
                        assert forall|a: int| 0 <= a < self.entries().len() implies (
                        #[trigger] self.entries()[a]).1.len() <= 255 by {
                            if a < rs1.len() {
                                assert(self.entries()[a] == rs1[a]);
                            }
                        }
                    }
                    assert(self@ =~= old(self)@.insert(key, data@));
                }
            },
            None => {
                self.records.push((key, v));
                proof {
                    assert(self.entries() =~= rs0.push((key, v@)));
                    lemma_map_of_push(rs0, key, v@);
                    assert(bounded_values(self.entries())) by {
                        assert forall|a: int| 0 <= a < self.entries().len() implies (
                        #[trigger] self.entries()[a]).1.len() <= 255 by {
                            if a < rs0.len() {
                                assert(self.entries()[a] == rs0[a]);
                            }
                        }
                    }
                    assert(self@ =~= old(self)@.insert(key, data@));
                }
            },
        }
    }

    /// Stores the UTF-8 bytes of `data` under `key`.
    pub fn set_str(&mut self, key: TlvKey, data: &str)
        requires
            old(self).wf(),
            data.spec_bytes().len() <= 255,
        ensures
            final(self).wf(),
            final(self)@ == old(self)@.insert(key, data.spec_bytes()),
    {
        self.set_bin(key, data.as_bytes());
    }

    /// The stored entries: every pair is in the record set's mapping, every
    /// key of the mapping occurs, and no key twice.
    pub fn data(&self) -> (r: &Vec<(TlvKey, Vec<u8>)>)
        requires
            self.wf(),
        ensures
            forall|i: int|
                0 <= i < r@.len() ==> self@.dom().contains((#[trigger] r@[i]).0) && self@[r@[i].0]
                    == r@[i].1@,
            forall|k: TlvKey| self@.dom().contains(k) ==> exists|i: int|
                0 <= i < r@.len() && (#[trigger] r@[i]).0 == k,
            forall|i: int, j: int| 0 <= i < j < r@.len() ==> (#[trigger] r@[i]).0 != (
            #[trigger] r@[j]).0,
    {
        proof {
            let rs = self.entries();
            assert forall|i: int|
                0 <= i < self.records@.len() implies self@.dom().contains(
                (#[trigger] self.records@[i]).0,
            ) && self@[self.records@[i].0] == self.records@[i].1@ by {
                assert(rs[i] == (self.records@[i].0, self.records@[i].1@));
                lemma_map_of_at(rs, rs[i].0, i);
            }
            assert forall|k: TlvKey| self@.dom().contains(k) implies exists|i: int|
                0 <= i < self.records@.len() && (#[trigger] self.records@[i]).0 == k by {
                let i = choose|i: int| keyed_at(rs, k, i);
                assert(self.records@[i].0 == k);
            }
            assert forall|i: int, j: int| 0 <= i < j < self.records@.len() implies (
            #[trigger] self.records@[i]).0 != (#[trigger] self.records@[j]).0 by {
                assert(rs[i].0 == self.records@[i].0);
                assert(rs[j].0 == self.records@[j].0);
            }
        }
        &self.records
    }
}

// ---------------------------------------------------------------------------
// Executable codec.

proof fn lemma_encode_records_push(rs: Seq<(TlvKey, Seq<u8>)>, p: (TlvKey, Seq<u8>))
    ensures
        encode_records(rs.push(p)) =~= encode_records(rs) + encode_record(p.0, p.1),
    decreases rs.len(),
{
    if rs.len() == 0 {
        assert(rs.push(p).drop_first() =~= Seq::<(TlvKey, Seq<u8>)>::empty());
        assert(rs.push(p)[0] == p);
        assert(encode_records(rs.push(p)) == encode_record(p.0, p.1) + encode_records(
            rs.push(p).drop_first(),
        ));
        assert(encode_records(rs.push(p).drop_first()) == Seq::<u8>::empty());
        assert(encode_record(p.0, p.1) + Seq::<u8>::empty() =~= encode_record(p.0, p.1));
        assert(encode_records(rs) == Seq::<u8>::empty());
        assert(Seq::<u8>::empty() + encode_record(p.0, p.1) =~= encode_record(p.0, p.1));
    } else {
        assert(rs.push(p).drop_first() =~= rs.drop_first().push(p));
        lemma_encode_records_push(rs.drop_first(), p);
        assert(rs.push(p)[0] == rs[0]);
        assert(encode_record(rs[0].0, rs[0].1) + (encode_records(rs.drop_first()) + encode_record(
            p.0,
            p.1,
        )) =~= (encode_record(rs[0].0, rs[0].1) + encode_records(rs.drop_first())) + encode_record(
            p.0,
            p.1,
        ));
    }
}

/// A record sequence with distinct keys has at most as many entries as the
/// protocol has keys.
proof fn lemma_distinct_seq_short(rs: Seq<(TlvKey, Seq<u8>)>)
    requires
        distinct_keys(rs),
    ensures
        rs.len() <= 20,
{
    let bytes = Seq::new(rs.len(), |i: int| key_byte_spec(rs[i].0) as int);
    assert(bytes.no_duplicates()) by {
        assert forall|i: int, j: int|
            0 <= i < bytes.len() && 0 <= j < bytes.len() && i != j implies bytes[i] != bytes[j] by {
            if bytes[i] == bytes[j] {
                lemma_key_byte_round_trip(rs[i].0);
                lemma_key_byte_round_trip(rs[j].0);
                assert(rs[i].0 == rs[j].0);
                if i < j {
                    assert((rs[i]).0 != (rs[j]).0);
                } else {
                    assert((rs[j]).0 != (rs[i]).0);
                }
            }
        }
    }
    bytes.unique_seq_to_set();
    assert(bytes.to_set().subset_of(vstd::set_lib::set_int_range(1, 21))) by {
        assert forall|x: int| bytes.to_set().contains(x) implies vstd::set_lib::set_int_range(
            1,
            21,
        ).contains(x) by {
            let i = choose|i: int| 0 <= i < bytes.len() && bytes[i] == x;
            assert(1 <= key_byte_spec(rs[i].0) <= 0x14);
        }
    }
    vstd::set_lib::lemma_int_range(1, 21);
    vstd::set_lib::lemma_len_subset(bytes.to_set(), vstd::set_lib::set_int_range(1, 21));
}

impl Tlv {
    /// Reads one record at `begin`: its key byte, its value, and how many
    /// bytes it occupies. Nothing is read when fewer than two bytes remain or
    /// the declared length overruns the buffer.
    pub fn deser_one(raw: &Vec<u8>, begin: usize) -> (r: Option<(u8, Vec<u8>, usize)>)
        requires
            begin <= raw@.len(),
        ensures
            match r {
                Some(kvc) => {
                    &&& raw@.len() - begin >= 2
                    &&& begin + 2 + raw@[begin as int + 1] <= raw@.len()
                    &&& kvc.0 == raw@[begin as int]
                    &&& kvc.1@ == raw@.subrange(
                        begin as int + 2,
                        begin as int + 2 + raw@[begin as int + 1],
                    )
                    &&& kvc.2 == 2 + raw@[begin as int + 1]
                },
                None => raw@.len() - begin < 2 || begin + 2 + raw@[begin as int + 1]
                    > raw@.len(),
            },
    {
        if raw.len() - begin < 2 {
            return None;
        }
        let k = raw[begin];
        let len = raw[begin + 1] as usize;
        if len > raw.len() - begin - 2 {
            return None;
        }
        let mut v: Vec<u8> = Vec::new();
        let mut j: usize = 0;
        proof {
            assert(v@ =~= raw@.subrange(begin as int + 2, begin as int + 2 + 0));
        }
        while j < len
            invariant
                raw@.len() <= usize::MAX,
                begin + 2 + len <= raw@.len(),
                len == raw@[begin as int + 1],
                j <= len,
                v@ == raw@.subrange(begin as int + 2, begin as int + 2 + j),
            decreases len - j,
        {
            v.push(raw[begin + 2 + j]);
            j = j + 1;
            proof {
                assert(v@ =~= raw@.subrange(begin as int + 2, begin as int + 2 + j));
            }
        }
        Some((k, v, len + 2))
    }

    /// Decodes a byte stream into a record set. Never fails: decoding stops
    /// at the first incomplete record, skips unrecognized keys, and keeps the
    /// first occurrence of each key.
    pub fn deserialize(raw: &Vec<u8>) -> (r: Tlv)
        ensures
            r.wf(),
            r@ == decoded(raw@),
    {
        let mut out = Tlv::new();
        let mut i: usize = 0;
        proof {
            vstd::std_specs::vec::axiom_spec_len(raw);
            assert(raw@.skip(0) =~= raw@);
        }
        loop
            invariant
                raw@.len() <= usize::MAX,
                i <= raw@.len(),
                out.wf(),
                decoded(raw@) == decode_records(raw@.skip(i as int), out@),
            ensures
                out.wf(),
                out@ == decoded(raw@),
            decreases raw@.len() - i,
        {
            let ghost t = raw@.skip(i as int);
            match Tlv::deser_one(raw, i) {
                Some((k, v, consumed)) => {
                    proof {
                        assert(t.len() == raw@.len() - i);
                        assert(t[0] == raw@[i as int]);
                        assert(t[1] == raw@[i as int + 1]);
                        assert(2 + t[1] <= t.len());
                        assert(t.subrange(2, 2 + t[1] as int) =~= raw@.subrange(
                            i as int + 2,
                            i as int + 2 + raw@[i as int + 1],
                        ));
                        assert(t.skip(2 + t[1] as int) =~= raw@.skip(i + consumed));
                    }
                    match key_of_byte(k) {
                        Some(key) => {
                            if out.get_bin(key).is_none() {
                                out.set_bin(key, v.as_slice());
                            }
                        },
                        None => {
                        },
                    }
                    i = i + consumed;
                },
                None => {
                    proof {
                        if t.len() >= 2 {
                            assert(2 + t[1] > t.len());
                        }
                        assert(decode_records(t, out@) == out@);
                    }
                    break;
                },
            }
        }
        out
    }

    /// Writes the record set's wire bytes: exactly the concatenation, in
    /// stored entry order, of key byte, length byte, value bytes per record.
    /// The output decodes back to exactly this record set, and is short
    /// enough that its length always fits the frame header.
    pub fn serialize(self) -> (out: Vec<u8>)
        requires
            self.wf(),
        ensures
            out@ == encode_records(self.entries()),
            decoded(out@) == self@,
            forall|suffix: Seq<u8>| #[trigger] decode_records(
                out@ + suffix,
                Map::<TlvKey, Seq<u8>>::empty(),
            ) == decode_records(suffix, self@),
            out@.len() <= 5140,
    {
        let ghost rs = self.entries();
        let mut out: Vec<u8> = Vec::new();
        let mut i: usize = 0;
        let n = self.records.len();
        proof {
            assert(rs.take(0) =~= Seq::<(TlvKey, Seq<u8>)>::empty());
        }
        while i < n
            invariant
                self.wf(),
                rs == self.entries(),
                n == self.records@.len(),
                i <= n,
                out@ == encode_records(rs.take(i as int)),
                out@.len() <= i * 257,
            decreases n - i,
        {
            let ghost base = out@;
            proof {
                assert(rs[i as int] == (self.records@[i as int].0, self.records@[i as int].1@));
                assert(rs[i as int].1.len() <= 255);
            }
            let key = self.records[i].0;
            out.push(key_byte(key));
            let vlen = self.records[i].1.len();
            out.push(vlen as u8);
            let mut j: usize = 0;
            while j < vlen
                invariant
                    rs == self.entries(),
                    i < self.records@.len(),
                    rs[i as int].1 == self.records@[i as int].1@,
                    vlen == self.records@[i as int].1@.len(),
                    j <= vlen,
                    out@ == base + seq![key_byte_spec(rs[i as int].0), vlen as u8] + rs[
                        i as int
                    ].1.take(j as int),
                decreases vlen - j,
            {
                out.push(self.records[i].1[j]);
                j = j + 1;
                proof {
                    assert(rs[i as int].1.take(j as int) =~= rs[i as int].1.take(j - 1).push(
                        rs[i as int].1[j - 1],
                    ));
                    assert(out@ =~= base + seq![key_byte_spec(rs[i as int].0), vlen as u8] + rs[
                        i as int
                    ].1.take(j as int));
                }
            }
            proof {
                assert(rs[i as int].1.take(vlen as int) =~= rs[i as int].1);
                assert(out@ =~= encode_records(rs.take(i as int)) + encode_record(
                    rs[i as int].0,
                    rs[i as int].1,
                ));
                lemma_encode_records_push(rs.take(i as int), rs[i as int]);
                assert(rs.take(i + 1) =~= rs.take(i as int).push(rs[i as int]));
            }
            i = i + 1;
        }
        proof {
            assert(rs.take(n as int) =~= rs);
            assert forall|suffix: Seq<u8>| #[trigger] decode_records(
                out@ + suffix,
                Map::<TlvKey, Seq<u8>>::empty(),
            ) == decode_records(suffix, self@) by {
                lemma_decode_encode(rs, suffix, Map::empty());
                lemma_accumulate_map_of(rs, Map::empty());
                assert(map_of(rs).union_prefer_right(Map::<TlvKey, Seq<u8>>::empty()) =~= map_of(
                    rs,
                ));
            }
            assert(out@ + Seq::<u8>::empty() =~= out@);
            assert(decoded(out@) == decode_records(Seq::<u8>::empty(), self@));
            lemma_distinct_seq_short(rs);
        }
        out
    }
}

} // verus!
