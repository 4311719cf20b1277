//! Handshake scenarios: event classification, the staged transitions, the
//! post-finalize reset, the liveness timer, and the bootstrap counter seed.

use vtk::frame::decode_frame;
use vtk::session::{
    encode_outbound, match_fin, match_sta, match_vrp, seed_operation_num, Outbound, Session, Stage,
};
use vtk::tlv::{Tlv, TlvKey};

fn msg(name: &str, amount: Option<&str>) -> Tlv {
    let mut t = Tlv::new();
    t.set_str(TlvKey::MsgName, name);
    if let Some(a) = amount {
        t.set_str(TlvKey::AmountInMinorCurrencyUnit, a);
    }
    t
}

#[test]
fn match_sta_requires_name_and_amount() {
    assert_eq!(match_sta(&msg("STA", Some("150"))), Some(150));
    assert_eq!(match_sta(&msg("VRP", Some("150"))), None);
    // Amount absent or malformed: the event is ignored, not an abort.
    assert_eq!(match_sta(&msg("STA", None)), None);
    assert_eq!(match_sta(&msg("STA", Some("15x"))), None);
    assert_eq!(match_sta(&msg("STA", Some(""))), None);
}

#[test]
fn match_vrp_requires_equal_amount() {
    assert!(match_vrp(&msg("VRP", Some("150")), 150));
    assert!(!match_vrp(&msg("VRP", Some("99")), 150));
    assert!(!match_vrp(&msg("FIN", Some("150")), 150));
    assert!(!match_vrp(&msg("VRP", None), 150));
}

#[test]
fn match_fin_requires_equal_amount() {
    assert!(match_fin(&msg("FIN", Some("150")), 150));
    assert!(!match_fin(&msg("FIN", Some("151")), 150));
    assert!(!match_fin(&msg("VRP", Some("150")), 150));
}

#[test]
fn start_event_while_idle_reserves() {
    let mut s = Session::new(5);
    let out = s.handle_msg(&msg("STA", Some("150")));
    assert_eq!(
        out,
        vec![Outbound::Vrp { amount: 150, operation_num: 6 }]
    );
    assert_eq!(s.stage, Stage::Started);
    assert_eq!(s.pending_amount, 150);
    assert_eq!(s.operation_num, 6);
}

#[test]
fn reserve_confirm_while_started_finalizes() {
    let mut s = Session::new(5);
    s.handle_msg(&msg("STA", Some("150")));
    let out = s.handle_msg(&msg("VRP", Some("150")));
    assert_eq!(
        out,
        vec![Outbound::Fin { amount: 150, operation_num: 6 }]
    );
    assert_eq!(s.stage, Stage::Reserved);
    assert_eq!(s.pending_amount, 150);
    // The counter is not incremented again for the finalize message.
    assert_eq!(s.operation_num, 6);
}

#[test]
fn finalize_confirm_acknowledges_and_resets() {
    let mut s = Session::new(5);
    s.handle_msg(&msg("STA", Some("150")));
    s.handle_msg(&msg("VRP", Some("150")));
    let out = s.handle_msg(&msg("FIN", Some("150")));
    assert_eq!(out, vec![Outbound::IdleAck]);
    assert_eq!(s.stage, Stage::Idle);
    assert_eq!(s.pending_amount, 0);
    assert_eq!(s.operation_num, 6);
}

#[test]
fn amount_mismatch_makes_no_transition() {
    let mut s = Session::new(5);
    s.handle_msg(&msg("STA", Some("150")));
    let out = s.handle_msg(&msg("VRP", Some("99")));
    assert_eq!(out, Vec::new());
    assert_eq!(s.stage, Stage::Started);
    assert_eq!(s.pending_amount, 150);
}

#[test]
fn unmatched_messages_leave_the_session_alone() {
    let mut s = Session::new(5);
    assert_eq!(s.handle_msg(&msg("IDL", None)), Vec::new());
    assert_eq!(s.stage, Stage::Idle);
    // A reserve confirmation while idle is not a start event.
    assert_eq!(s.handle_msg(&msg("VRP", Some("150"))), Vec::new());
    assert_eq!(s.stage, Stage::Idle);
    s.handle_msg(&msg("STA", Some("150")));
    // A second start while already started is ignored.
    assert_eq!(s.handle_msg(&msg("STA", Some("99"))), Vec::new());
    assert_eq!(s.stage, Stage::Started);
    assert_eq!(s.pending_amount, 150);
    assert_eq!(s.operation_num, 6);
}

#[test]
fn liveness_due_at_interval_boundary() {
    let s = Session::new(9);
    assert_eq!(s.poll_liveness(0), None);
    assert_eq!(s.poll_liveness(269), None);
    assert_eq!(
        s.poll_liveness(270),
        Some(Outbound::Keepalive { operation_num: 9 })
    );
    assert_eq!(
        s.poll_liveness(1000),
        Some(Outbound::Keepalive { operation_num: 9 })
    );
}

#[test]
fn seed_operation_num_reads_bootstrap_reply() {
    let mut t = Tlv::new();
    t.set_str(TlvKey::OperationNum, "42");
    assert_eq!(seed_operation_num(&t), Some(42));
    assert_eq!(seed_operation_num(&Tlv::new()), None);
    let mut bad = Tlv::new();
    bad.set_str(TlvKey::OperationNum, "4x");
    assert_eq!(seed_operation_num(&bad), None);
}

#[test]
fn outbound_vrp_frame_carries_amount_and_counter() {
    let frame = encode_outbound(&Outbound::Vrp { amount: 150, operation_num: 7 });
    let back = decode_frame(&frame).unwrap();
    assert_eq!(back.get_bin(TlvKey::MsgName), Some(&b"VRP".to_vec()));
    assert_eq!(
        back.get_bin(TlvKey::AmountInMinorCurrencyUnit),
        Some(&b"150".to_vec())
    );
    assert_eq!(back.get_bin(TlvKey::OperationNum), Some(&b"7".to_vec()));
}

#[test]
fn outbound_fin_frame_carries_amount_and_counter() {
    let frame = encode_outbound(&Outbound::Fin { amount: 99, operation_num: 12 });
    let back = decode_frame(&frame).unwrap();
    assert_eq!(back.get_bin(TlvKey::MsgName), Some(&b"FIN".to_vec()));
    assert_eq!(
        back.get_bin(TlvKey::AmountInMinorCurrencyUnit),
        Some(&b"99".to_vec())
    );
    assert_eq!(back.get_bin(TlvKey::OperationNum), Some(&b"12".to_vec()));
}

#[test]
fn outbound_idle_frames() {
    let ack = decode_frame(&encode_outbound(&Outbound::IdleAck)).unwrap();
    assert_eq!(ack.get_bin(TlvKey::MsgName), Some(&b"IDL".to_vec()));
    assert_eq!(ack.get_bin(TlvKey::AmountInMinorCurrencyUnit), None);
    let alive =
        decode_frame(&encode_outbound(&Outbound::Keepalive { operation_num: 3 })).unwrap();
    assert_eq!(alive.get_bin(TlvKey::MsgName), Some(&b"IDL".to_vec()));
    assert_eq!(alive.get_bin(TlvKey::OperationNum), Some(&b"3".to_vec()));
}

#[test]
fn full_handshake_over_the_wire() {
    // Drive the session with frames as the transport would deliver them.
    let mut s = Session::new(0);
    let inbound = |name: &str, amount: &str| {
        let mut t = Tlv::new();
        t.set_str(TlvKey::AmountInMinorCurrencyUnit, amount);
        let bytes = vtk::frame::encode_frame(name, t);
        decode_frame(&bytes).unwrap()
    };
    let out = s.handle_msg(&inbound("STA", "2500"));
    assert_eq!(out, vec![Outbound::Vrp { amount: 2500, operation_num: 1 }]);
    let out = s.handle_msg(&inbound("VRP", "2500"));
    assert_eq!(out, vec![Outbound::Fin { amount: 2500, operation_num: 1 }]);
    let out = s.handle_msg(&inbound("FIN", "2500"));
    assert_eq!(out, vec![Outbound::IdleAck]);
    assert_eq!(s.stage, Stage::Idle);
}
