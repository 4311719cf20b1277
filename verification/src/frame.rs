//! Frame codec: the wire envelope around a serialized record set. A frame is
//! a one-byte start marker, a two-byte big-endian length counting the two
//! magic bytes plus the payload, the two magic bytes, the payload, and a
//! two-byte big-endian CRC16 over everything before it.
//!
//! For wire compatibility with deployed peers, inbound decoding reproduces
//! the permissive legacy behavior: the five header bytes are skipped without
//! checking marker, length, magic or CRC, and the remainder (payload plus the
//! trailing CRC bytes) is handed to the record decoder, whose stop rule
//! consumes the two CRC bytes as at most one empty-valued record.

use vstd::prelude::*;
use vstd::string::StringSliceAdditionalSpecFns;

use crate::crc::{crc16, crc_of};
use crate::tlv::{decoded, lemma_decode_tail_two, Tlv, TlvKey};

verus! {

/// First byte of every frame.
pub const START_MARKER: u8 = 0x1F;

/// First magic byte identifying the protocol.
pub const MAGIC0: u8 = 0x96;

/// Second magic byte identifying the protocol.
pub const MAGIC1: u8 = 0xFB;

/// Fewest bytes an inbound buffer may hold: marker, length, magic, and the
/// trailing checksum around an empty payload.
pub const MIN_FRAME_LEN: usize = 9;

/// Why an inbound buffer was rejected.
#[derive(Clone, Copy, PartialEq, Eq, Structural, Debug)]
pub enum FrameError {
    /// Fewer than `MIN_FRAME_LEN` bytes arrived.
    TooShort,
}

/// Big-endian bytes of a 16-bit value.
pub open spec fn be16(n: u16) -> Seq<u8> {
    seq![(n / 256) as u8, (n % 256) as u8]
}

/// Builds the outbound frame carrying `tlv` under message name `msg_name`:
/// stores the name in the message-name record (overwriting any prior value
/// there), serializes the record set, and wraps it in marker, length, magic
/// and CRC16. The payload between the header and the CRC decodes to exactly
/// the records sent; decoding the whole remainder, as the legacy inbound path
/// does, recovers them too, but for at most one spurious empty-valued record
/// that the trailing CRC bytes can masquerade as.
pub fn encode_frame(msg_name: &str, tlv: Tlv) -> (out: Vec<u8>)
    requires
        tlv.wf(),
        msg_name.spec_bytes().len() <= 255,
    ensures
        9 <= out@.len(),
        out@.len() <= 5149,
        out@[0] == START_MARKER,
        out@[3] == MAGIC0,
        out@[4] == MAGIC1,
        out@.subrange(1, 3) == be16((out@.len() - 5) as u16),
        out@.subrange(out@.len() - 2, out@.len() as int) == be16(
            crc16(out@.take(out@.len() - 2)),
        ),
        decoded(out@.subrange(5, out@.len() - 2)) == tlv@.insert(
            TlvKey::MsgName,
            msg_name.spec_bytes(),
        ),
        ({
            let m = decoded(out@.skip(5));
            let target = tlv@.insert(TlvKey::MsgName, msg_name.spec_bytes());
            &&& forall|k: TlvKey|
                #[trigger] target.dom().contains(k) ==> m.dom().contains(k) && m[k] == target[k]
            &&& forall|k: TlvKey|
                #[trigger] m.dom().contains(k) ==> target.dom().contains(k) || m[k] == Seq::<
                    u8,
                >::empty()
        }),
{
    let mut t = tlv;
    t.set_str(TlvKey::MsgName, msg_name);
    let ghost target = t@;
    let payload = t.serialize();
    proof {
        assert(payload@.len() >= 2) by {
            if payload@.len() < 2 {
                assert(decoded(payload@) == Map::<TlvKey, Seq<u8>>::empty());
                assert(target.dom().contains(TlvKey::MsgName));
            }
        }
    }
    let len16: u16 = (payload.len() + 2) as u16;
    let mut out: Vec<u8> = Vec::new();
    out.push(START_MARKER);
    out.push((len16 / 256) as u8);
    out.push((len16 % 256) as u8);
    out.push(MAGIC0);
    out.push(MAGIC1);
    let ghost header = seq![
        START_MARKER,
        (len16 / 256) as u8,
        (len16 % 256) as u8,
        MAGIC0,
        MAGIC1,
    ];
    proof {
        assert(out@ =~= header + payload@.take(0));
    }
    let mut j: usize = 0;
    let n = payload.len();
    while j < n
        invariant
            n == payload@.len(),
            j <= n,
            out@ == header + payload@.take(j as int),
        decreases n - j,
    {
        out.push(payload[j]);
        j = j + 1;
        proof {
            assert(out@ =~= header + payload@.take(j as int));
        }
    }
    proof {
        assert(payload@.take(n as int) =~= payload@);
    }
    let ghost body = out@;
    let c = crc_of(&out);
    out.push((c / 256) as u8);
    out.push((c % 256) as u8);
    proof {
        assert(out@ =~= body + be16(c));
        assert(out@.take(out@.len() - 2) =~= body);
        assert(out@.subrange(out@.len() - 2, out@.len() as int) =~= be16(c));
        assert(out@.subrange(1, 3) =~= be16(len16));
        assert(out@.len() - 5 == len16);
        assert(out@.subrange(5, out@.len() - 2) =~= payload@);
        assert(out@.skip(5) =~= payload@ + be16(c));
        assert(decoded(payload@ + be16(c)) == crate::tlv::decode_records(be16(c), target));
        lemma_decode_tail_two(be16(c), target);
        let m = decoded(out@.skip(5));
        assert(m == crate::tlv::decode_records(be16(c), target));
        assert(target == tlv@.insert(TlvKey::MsgName, msg_name.spec_bytes()));
        assert(forall|k: TlvKey|
            target.dom().contains(k) ==> m.dom().contains(k) && m[k] == target[k]);
        assert(forall|k: TlvKey|
            m.dom().contains(k) ==> target.dom().contains(k) || m[k] == Seq::<u8>::empty());
    }
    out
}

/// Parses an inbound buffer. Fewer than `MIN_FRAME_LEN` bytes is a rejection
/// — never a partial record set; otherwise the five header bytes are skipped
/// and the remainder is decoded as records (the legacy behavior: no CRC
/// verification, trailing bytes tolerated by the record decoder's stop rule).
pub fn decode_frame(buf: &Vec<u8>) -> (r: Result<Tlv, FrameError>)
    ensures
        r is Err <==> buf@.len() < MIN_FRAME_LEN,
        r is Err ==> r == Result::<Tlv, FrameError>::Err(FrameError::TooShort),
        r matches Ok(t) ==> t.wf() && t@ == decoded(buf@.skip(5)),
{
    if buf.len() < MIN_FRAME_LEN {
        return Err(FrameError::TooShort);
    }
    let mut rest: Vec<u8> = Vec::new();
    let mut j: usize = 5;
    let n = buf.len();
    proof {
        assert(rest@ =~= buf@.subrange(5, 5));
    }
    while j < n
        invariant
            n == buf@.len(),
            5 <= j <= n,
            rest@ == buf@.subrange(5, j as int),
        decreases n - j,
    {
        rest.push(buf[j]);
        j = j + 1;
        proof {
            assert(rest@ =~= buf@.subrange(5, j as int));
        }
    }
    proof {
        assert(buf@.subrange(5, n as int) =~= buf@.skip(5));
    }
    Ok(Tlv::deserialize(&rest))
}

} // verus!
