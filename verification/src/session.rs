//! Payment handshake state machine. Decoded record sets are classified as
//! start ("STA"), reserve-confirm ("VRP") or finalize-confirm ("FIN") events;
//! the session walks Idle, Started, Reserved, Finalized, carrying the pending
//! amount and the monotonic operation counter, and says which outbound
//! messages to send. A periodic liveness message ("IDL") is due independently
//! of the handshake.

use vstd::prelude::*;
use vstd::string::StringSliceAdditionalSpecFns;

use crate::decimal::{dec_rep, lemma_dec_rep_len_u32, parse_u32, parsed_u32, u32_to_dec};
use crate::frame::{be16, encode_frame, MAGIC0, MAGIC1, START_MARKER};
use crate::crc::crc16;
use crate::tlv::{decoded, Tlv, TlvKey};

verus! {

/// Wire bytes of the start message name, "STA".
pub open spec fn name_sta() -> Seq<u8> {
    seq![0x53u8, 0x54u8, 0x41u8]
}

/// Wire bytes of the reservation message name, "VRP".
pub open spec fn name_vrp() -> Seq<u8> {
    seq![0x56u8, 0x52u8, 0x50u8]
}

/// Wire bytes of the finalize message name, "FIN".
pub open spec fn name_fin() -> Seq<u8> {
    seq![0x46u8, 0x49u8, 0x4Eu8]
}

/// Wire bytes of the idle/liveness message name, "IDL".
pub open spec fn name_idl() -> Seq<u8> {
    seq![0x49u8, 0x44u8, 0x4Cu8]
}

/// The amount field of a record set, parsed, when present and well formed.
/// A malformed or absent amount yields nothing rather than aborting.
pub open spec fn amount_of(m: Map<TlvKey, Seq<u8>>) -> Option<u32> {
    if m.dom().contains(TlvKey::AmountInMinorCurrencyUnit) {
        parsed_u32(m[TlvKey::AmountInMinorCurrencyUnit])
    } else {
        None
    }
}

/// A start event: message name "STA" with a well-formed amount, which the
/// event carries.
pub open spec fn sta_event(m: Map<TlvKey, Seq<u8>>) -> Option<u32> {
    if m.dom().contains(TlvKey::MsgName) && m[TlvKey::MsgName] == name_sta() {
        amount_of(m)
    } else {
        None
    }
}

/// A reserve confirmation for `money`: message name "VRP" and an amount that
/// parses to exactly `money`.
pub open spec fn vrp_matches(m: Map<TlvKey, Seq<u8>>, money: u32) -> bool {
    m.dom().contains(TlvKey::MsgName) && m[TlvKey::MsgName] == name_vrp() && amount_of(m)
        == Some(money)
}

/// A finalize confirmation for `money`: message name "FIN" and an amount that
/// parses to exactly `money`.
pub open spec fn fin_matches(m: Map<TlvKey, Seq<u8>>, money: u32) -> bool {
    m.dom().contains(TlvKey::MsgName) && m[TlvKey::MsgName] == name_fin() && amount_of(m)
        == Some(money)
}

/// Does the record set carry exactly the three bytes `n0 n1 n2` as its
/// message name?
fn msg_name_is(msg: &Tlv, n0: u8, n1: u8, n2: u8) -> (r: bool)
    requires
        msg.wf(),
    ensures
        r == (msg@.dom().contains(TlvKey::MsgName) && msg@[TlvKey::MsgName] == seq![n0, n1, n2]),
{
    let ghost want: Seq<u8> = seq![n0, n1, n2];
    match msg.get_bin(TlvKey::MsgName) {
        Some(v) => {
            if v.len() == 3 {
                let hit = v[0] == n0 && v[1] == n1 && v[2] == n2;
                proof {
                    if hit {
                        assert(v@ =~= want);
                    } else {
                        assert(want[0] == n0 && want[1] == n1 && want[2] == n2);
                    }
                }
                hit
            } else {
                proof {
                    assert(want.len() == 3);
                }
                false
            }
        },
        None => false,
    }
}

/// The amount field of a record set, parsed.
fn read_amount(msg: &Tlv) -> (r: Option<u32>)
    requires
        msg.wf(),
    ensures
        r == amount_of(msg@),
{
    match msg.get_bin(TlvKey::AmountInMinorCurrencyUnit) {
        Some(v) => parse_u32(v),
        None => None,
    }
}

/// Classifies a record set as a start event: `Some(amount)` exactly when the
/// message name is "STA" and the amount field is present and well formed.
pub fn match_sta(msg: &Tlv) -> (r: Option<u32>)
    requires
        msg.wf(),
    ensures
        r == sta_event(msg@),
{
    if msg_name_is(msg, 0x53, 0x54, 0x41) {
        read_amount(msg)
    } else {
        None
    }
}

/// Whether a record set confirms a reservation of `money`: message name
/// "VRP" and an amount field that parses to exactly `money`. An absent or
/// malformed amount makes no match rather than aborting.
pub fn match_vrp(msg: &Tlv, money: u32) -> (r: bool)
    requires
        msg.wf(),
    ensures
        r == vrp_matches(msg@, money),
{
    if msg_name_is(msg, 0x56, 0x52, 0x50) {
        match read_amount(msg) {
            Some(a) => a == money,
            None => false,
        }
    } else {
        false
    }
}

/// Whether a record set confirms finalization of `money`: as `match_vrp`,
/// under the message name "FIN".
pub fn match_fin(msg: &Tlv, money: u32) -> (r: bool)
    requires
        msg.wf(),
    ensures
        r == fin_matches(msg@, money),
{
    if msg_name_is(msg, 0x46, 0x49, 0x4E) {
        match read_amount(msg) {
            Some(a) => a == money,
            None => false,
        }
    } else {
        false
    }
}

/// Stage of the payment handshake.
#[derive(Clone, Copy, PartialEq, Eq, Structural, Debug)]
pub enum Stage {
    Idle,
    Started,
    Reserved,
    Finalized,
}

/// One outbound protocol message the state machine asks the transport to
/// send.
#[derive(Clone, Copy, PartialEq, Eq, Structural, Debug)]
pub enum Outbound {
    /// Reservation request "VRP" carrying the amount and the operation
    /// counter, as decimal text.
    Vrp { amount: u32, operation_num: u32 },
    /// Finalize request "FIN" carrying the amount and the operation counter.
    Fin { amount: u32, operation_num: u32 },
    /// Idle message "IDL" with no records, acknowledging a finished
    /// handshake.
    IdleAck,
    /// Periodic liveness message "IDL" carrying the operation counter.
    Keepalive { operation_num: u32 },
}

/// The handshake session: its stage, the amount being confirmed (zero and
/// meaningless while `Idle`), and the monotonic operation counter the
/// terminal seeded on connection.
#[derive(Clone, Copy, PartialEq, Eq, Structural, Debug)]
pub struct Session {
    pub stage: Stage,
    pub pending_amount: u32,
    pub operation_num: u32,
}

/// One step of the handshake on an inbound record set: the next session and
/// the outbound messages to send, in order. The event checks are cumulative
/// within one step — a later-stage check still runs after an earlier one
/// matched — and a session reaching `Finalized` acknowledges with an idle
/// message and resets at once.
pub open spec fn step(s: Session, m: Map<TlvKey, Seq<u8>>) -> (Session, Seq<Outbound>) {
    let started = s.stage == Stage::Idle && sta_event(m) is Some;
    let s1 = if started {
        Session {
            stage: Stage::Started,
            pending_amount: sta_event(m).unwrap(),
            operation_num: (s.operation_num + 1) as u32,
        }
    } else {
        s
    };
    let out1: Seq<Outbound> = if started {
        seq![
            Outbound::Vrp { amount: s1.pending_amount, operation_num: s1.operation_num },
        ]
    } else {
        Seq::empty()
    };
    let reserved = s1.stage == Stage::Started && vrp_matches(m, s1.pending_amount);
    let s2 = if reserved {
        Session { stage: Stage::Reserved, ..s1 }
    } else {
        s1
    };
    let out2 = if reserved {
        out1.push(Outbound::Fin { amount: s2.pending_amount, operation_num: s2.operation_num })
    } else {
        out1
    };
    let finalized = s2.stage == Stage::Reserved && fin_matches(m, s2.pending_amount);
    let s3 = if finalized {
        Session { stage: Stage::Finalized, ..s2 }
    } else {
        s2
    };
    if s3.stage == Stage::Finalized {
        (
            Session { stage: Stage::Idle, pending_amount: 0, operation_num: s3.operation_num },
            out2.push(Outbound::IdleAck),
        )
    } else {
        (s3, out2)
    }
}

/// Seconds without a liveness send after which one is due.
pub const KEEPALIVE_INTERVAL_SECS: u64 = 270;

impl Session {
    /// An idle session has no pending amount.
    pub open spec fn wf(self) -> bool {
        self.stage == Stage::Idle ==> self.pending_amount == 0
    }

    /// A fresh session in `Idle`, its counter seeded from the connection
    /// bootstrap.
    pub fn new(operation_num: u32) -> (s: Session)
        ensures
            s == (Session { stage: Stage::Idle, pending_amount: 0, operation_num }),
            s.wf(),
    {
        Session { stage: Stage::Idle, pending_amount: 0, operation_num }
    }

    /// Feeds one inbound record set to the session: advances the stage and
    /// returns the outbound messages to send, exactly as `step` says. The
    /// operation counter never decreases.
    pub fn handle_msg(&mut self, msg: &Tlv) -> (out: Vec<Outbound>)
        requires
            msg.wf(),
            old(self).wf(),
            old(self).operation_num < u32::MAX,
        ensures
            final(self).wf(),
            *final(self) == step(*old(self), msg@).0,
            out@ == step(*old(self), msg@).1,
            final(self).operation_num >= old(self).operation_num,
    {
        let mut out: Vec<Outbound> = Vec::new();
        if self.stage == Stage::Idle {
            match match_sta(msg) {
                Some(amount) => {
                    self.operation_num = self.operation_num + 1;
                    self.stage = Stage::Started;
                    self.pending_amount = amount;
                    out.push(
                        Outbound::Vrp { amount, operation_num: self.operation_num },
                    );
                },
                None => {
                },
            }
        }
        if self.stage == Stage::Started {
            if match_vrp(msg, self.pending_amount) {
                self.stage = Stage::Reserved;
                out.push(
                    Outbound::Fin {
                        amount: self.pending_amount,
                        operation_num: self.operation_num,
                    },
                );
            }
        }
        if self.stage == Stage::Reserved {
            if match_fin(msg, self.pending_amount) {
                self.stage = Stage::Finalized;
            }
        }
        if self.stage == Stage::Finalized {
            out.push(Outbound::IdleAck);
            self.stage = Stage::Idle;
            self.pending_amount = 0;
        }
        proof {
            assert(out@ =~= step(*old(self), msg@).1);
        }
        out
    }

    /// Whether the periodic liveness message is due: exactly when at least
    /// the keepalive interval has elapsed since the last liveness send,
    /// whatever the handshake stage. The caller restarts its timer when a
    /// message is returned, so one goes out per elapsed interval boundary.
    pub fn poll_liveness(&self, elapsed_secs: u64) -> (r: Option<Outbound>)
        ensures
            elapsed_secs >= KEEPALIVE_INTERVAL_SECS ==> r == Some(
                Outbound::Keepalive { operation_num: self.operation_num },
            ),
            elapsed_secs < KEEPALIVE_INTERVAL_SECS ==> r is None,
    {
        if elapsed_secs >= KEEPALIVE_INTERVAL_SECS {
            Some(Outbound::Keepalive { operation_num: self.operation_num })
        } else {
            None
        }
    }
}

/// The operation-number record of the bootstrap reply, parsed, to seed the
/// session counter; nothing when the record is absent or malformed.
pub fn seed_operation_num(msg: &Tlv) -> (r: Option<u32>)
    requires
        msg.wf(),
    ensures
        msg@.dom().contains(TlvKey::OperationNum) ==> r == parsed_u32(msg@[TlvKey::OperationNum]),
        !msg@.dom().contains(TlvKey::OperationNum) ==> r is None,
{
    match msg.get_bin(TlvKey::OperationNum) {
        Some(v) => parse_u32(v),
        None => None,
    }
}

/// The records an outbound message carries, besides its message name.
pub open spec fn outbound_records(o: Outbound) -> Map<TlvKey, Seq<u8>> {
    match o {
        Outbound::Vrp { amount, operation_num } => Map::<TlvKey, Seq<u8>>::empty().insert(
            TlvKey::AmountInMinorCurrencyUnit,
            dec_rep(amount as nat),
        ).insert(TlvKey::OperationNum, dec_rep(operation_num as nat)),
        Outbound::Fin { amount, operation_num } => Map::<TlvKey, Seq<u8>>::empty().insert(
            TlvKey::AmountInMinorCurrencyUnit,
            dec_rep(amount as nat),
        ).insert(TlvKey::OperationNum, dec_rep(operation_num as nat)),
        Outbound::IdleAck => Map::<TlvKey, Seq<u8>>::empty(),
        Outbound::Keepalive { operation_num } => Map::<TlvKey, Seq<u8>>::empty().insert(
            TlvKey::OperationNum,
            dec_rep(operation_num as nat),
        ),
    }
}

/// The message name an outbound message travels under.
pub open spec fn outbound_name(o: Outbound) -> Seq<u8> {
    match o {
        Outbound::Vrp { .. } => name_vrp(),
        Outbound::Fin { .. } => name_fin(),
        Outbound::IdleAck => name_idl(),
        Outbound::Keepalive { .. } => name_idl(),
    }
}

proof fn lemma_ascii_name_bytes(s: &str, c0: char, c1: char, c2: char)
    requires
        s@ == seq![c0, c1, c2],
        c0 <= '\u{7f}',
        c1 <= '\u{7f}',
        c2 <= '\u{7f}',
    ensures
        s.spec_bytes() == seq![c0 as u8, c1 as u8, c2 as u8],
{
    assert(vstd::utf8::is_ascii_chars(s@)) by {
        assert forall|i: int| 0 <= i < s@.len() implies '\0' <= #[trigger] s@[i] <= '\u{7f}' by {
            assert(s@[0] == c0 && s@[1] == c1 && s@[2] == c2);
        }
    }
    vstd::utf8::is_ascii_chars_encode_utf8(s@);
    assert(s.spec_bytes() =~= seq![c0 as u8, c1 as u8, c2 as u8]);
}

/// Builds the full wire frame of an outbound message: its records under its
/// message name, framed and checksummed. The envelope is exact — marker,
/// big-endian length, magic, trailing CRC16 over the prefix — and the payload
/// between header and CRC decodes to exactly the message's records; decoding
/// the whole remainder, as the legacy inbound path does, recovers them too,
/// but for at most one spurious empty-valued record from the CRC bytes.
pub fn encode_outbound(o: &Outbound) -> (out: Vec<u8>)
    ensures
        9 <= out@.len(),
        out@[0] == START_MARKER,
        out@[3] == MAGIC0,
        out@[4] == MAGIC1,
        out@.subrange(1, 3) == be16((out@.len() - 5) as u16),
        out@.subrange(out@.len() - 2, out@.len() as int) == be16(
            crc16(out@.take(out@.len() - 2)),
        ),
        decoded(out@.subrange(5, out@.len() - 2)) == outbound_records(*o).insert(
            TlvKey::MsgName,
            outbound_name(*o),
        ),
        ({
            let m = decoded(out@.skip(5));
            let target = outbound_records(*o).insert(TlvKey::MsgName, outbound_name(*o));
            &&& forall|k: TlvKey|
                #[trigger] target.dom().contains(k) ==> m.dom().contains(k) && m[k] == target[k]
            &&& forall|k: TlvKey|
                #[trigger] m.dom().contains(k) ==> target.dom().contains(k) || m[k] == Seq::<
                    u8,
                >::empty()
        }),
{
    let mut t = Tlv::new();
    match o {
        Outbound::Vrp { amount, operation_num } => {
            set_amount_and_op(&mut t, *amount, *operation_num);
            proof {
                reveal_strlit("VRP");
                assert("VRP"@ =~= seq!['V', 'R', 'P']);
                lemma_ascii_name_bytes("VRP", 'V', 'R', 'P');
                assert("VRP".spec_bytes() =~= name_vrp());
            }
            let ghost tv = t@;
            let r = encode_frame("VRP", t);
            proof {
                assert(tv.insert(TlvKey::MsgName, "VRP".spec_bytes()) =~= outbound_records(
                    *o,
                ).insert(TlvKey::MsgName, outbound_name(*o)));
            }
            r
        },
        Outbound::Fin { amount, operation_num } => {
            set_amount_and_op(&mut t, *amount, *operation_num);
            proof {
                reveal_strlit("FIN");
                assert("FIN"@ =~= seq!['F', 'I', 'N']);
                lemma_ascii_name_bytes("FIN", 'F', 'I', 'N');
                assert("FIN".spec_bytes() =~= name_fin());
            }
            let ghost tv = t@;
            let r = encode_frame("FIN", t);
            proof {
                assert(tv.insert(TlvKey::MsgName, "FIN".spec_bytes()) =~= outbound_records(
                    *o,
                ).insert(TlvKey::MsgName, outbound_name(*o)));
            }
            r
        },
        Outbound::IdleAck => {
            proof {
                reveal_strlit("IDL");
                assert("IDL"@ =~= seq!['I', 'D', 'L']);
                lemma_ascii_name_bytes("IDL", 'I', 'D', 'L');
                assert("IDL".spec_bytes() =~= name_idl());
            }
            let ghost tv = t@;
            let r = encode_frame("IDL", t);
            proof {
                assert(tv.insert(TlvKey::MsgName, "IDL".spec_bytes()) =~= outbound_records(
                    *o,
                ).insert(TlvKey::MsgName, outbound_name(*o)));
            }
            r
        },
        Outbound::Keepalive { operation_num } => {
            let n = u32_to_dec(*operation_num);
            proof {
                lemma_dec_rep_len_u32(*operation_num as nat);
            }
            t.set_bin(TlvKey::OperationNum, n.as_slice());
            proof {
                reveal_strlit("IDL");
                assert("IDL"@ =~= seq!['I', 'D', 'L']);
                lemma_ascii_name_bytes("IDL", 'I', 'D', 'L');
                assert("IDL".spec_bytes() =~= name_idl());
            }
            let ghost tv = t@;
            let r = encode_frame("IDL", t);
            proof {
                assert(tv.insert(TlvKey::MsgName, "IDL".spec_bytes()) =~= outbound_records(
                    *o,
                ).insert(TlvKey::MsgName, outbound_name(*o)));
            }
            r
        },
    }
}

/// Stores the amount and the operation counter as decimal text records.
fn set_amount_and_op(t: &mut Tlv, amount: u32, operation_num: u32)
    requires
        old(t).wf(),
    ensures
        final(t).wf(),
        final(t)@ == old(t)@.insert(
            TlvKey::AmountInMinorCurrencyUnit,
            dec_rep(amount as nat),
        ).insert(TlvKey::OperationNum, dec_rep(operation_num as nat)),
{
    let a = u32_to_dec(amount);
    proof {
        lemma_dec_rep_len_u32(amount as nat);
    }
    t.set_bin(TlvKey::AmountInMinorCurrencyUnit, a.as_slice());
    let n = u32_to_dec(operation_num);
    proof {
        lemma_dec_rep_len_u32(operation_num as nat);
    }
    t.set_bin(TlvKey::OperationNum, n.as_slice());
}

} // verus!
