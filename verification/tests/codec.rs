//! Checksum, record codec and frame codec behavior on concrete wire bytes.

use vtk::decimal::{parse_u32, u32_to_dec};
use vtk::frame::{decode_frame, encode_frame, FrameError};
use vtk::get_crc;
use vtk::tlv::{key_byte, key_of_byte, Tlv, TlvKey};

#[test]
fn crc_of_empty_input_is_initial_register() {
    assert_eq!(get_crc(Vec::new()), 0xFFFF);
}

#[test]
fn crc_matches_known_check_value() {
    // The standard check value for CRC-16/CCITT-FALSE (poly 0x1021, init
    // 0xFFFF, no final XOR) over the ASCII digits one through nine.
    assert_eq!(get_crc(b"123456789".to_vec()), 0x29B1);
}

#[test]
fn crc_is_deterministic() {
    let bytes = vec![0x1F, 0x00, 0x07, 0x96, 0xFB, 0x01, 0x03, 0x53, 0x54, 0x41];
    assert_eq!(get_crc(bytes.clone()), get_crc(bytes));
}

#[test]
fn crc_is_order_sensitive() {
    assert_ne!(get_crc(vec![1, 2]), get_crc(vec![2, 1]));
    assert_ne!(
        get_crc(b"123456789".to_vec()),
        get_crc(b"987654321".to_vec())
    );
}

#[test]
fn key_bytes_round_trip() {
    for (key, byte) in [
        (TlvKey::MsgName, 0x01),
        (TlvKey::OperationNum, 0x03),
        (TlvKey::AmountInMinorCurrencyUnit, 0x04),
        (TlvKey::QrCodeData, 0x0A),
        (TlvKey::DisplayTimeInMs, 0x14),
    ] {
        assert_eq!(key_byte(key), byte);
        assert_eq!(key_of_byte(byte), Some(key));
    }
    assert_eq!(key_of_byte(0x00), None);
    assert_eq!(key_of_byte(0x02), None);
    assert_eq!(key_of_byte(0x15), None);
    assert_eq!(key_of_byte(0xFF), None);
}

#[test]
fn record_set_insert_and_get() {
    let mut t = Tlv::new();
    assert_eq!(t.get_bin(TlvKey::MsgName), None);
    t.set_str(TlvKey::MsgName, "STA");
    t.set_bin(TlvKey::AmountInMinorCurrencyUnit, b"150");
    assert_eq!(t.get_bin(TlvKey::MsgName), Some(&b"STA".to_vec()));
    assert_eq!(
        t.get_bin(TlvKey::AmountInMinorCurrencyUnit),
        Some(&b"150".to_vec())
    );
    // Overwriting a key keeps a single record.
    t.set_str(TlvKey::MsgName, "FIN");
    assert_eq!(t.get_bin(TlvKey::MsgName), Some(&b"FIN".to_vec()));
    assert_eq!(t.data().len(), 2);
}

#[test]
fn deser_one_reads_a_whole_record() {
    let raw = vec![0x01, 0x02, 0x09, 0x08];
    assert_eq!(
        Tlv::deser_one(&raw, 0),
        Some((0x01, vec![0x09, 0x08], 4))
    );
}

#[test]
fn deser_one_stops_on_short_input() {
    assert_eq!(Tlv::deser_one(&vec![0x01], 0), None);
    // Declared length reaches past the end of the buffer.
    assert_eq!(Tlv::deser_one(&vec![0x01, 0x05, 0x00], 0), None);
    // Nothing left at the end.
    let raw = vec![0x01, 0x01, 0x41, 0x07];
    assert_eq!(Tlv::deser_one(&raw, 3), None);
}

#[test]
fn record_round_trip() {
    let mut t = Tlv::new();
    t.set_str(TlvKey::MsgName, "STA");
    t.set_bin(TlvKey::AmountInMinorCurrencyUnit, b"150");
    t.set_bin(TlvKey::OperationNum, b"42");
    let bytes = t.serialize();
    let back = Tlv::deserialize(&bytes);
    assert_eq!(back.get_bin(TlvKey::MsgName), Some(&b"STA".to_vec()));
    assert_eq!(
        back.get_bin(TlvKey::AmountInMinorCurrencyUnit),
        Some(&b"150".to_vec())
    );
    assert_eq!(back.get_bin(TlvKey::OperationNum), Some(&b"42".to_vec()));
    assert_eq!(back.data().len(), 3);
}

#[test]
fn serialize_emits_exact_record_bytes() {
    let mut t = Tlv::new();
    t.set_bin(TlvKey::AmountInMinorCurrencyUnit, b"150");
    assert_eq!(t.serialize(), vec![0x04, 0x03, b'1', b'5', b'0']);
    let mut two = Tlv::new();
    two.set_str(TlvKey::MsgName, "STA");
    two.set_bin(TlvKey::OperationNum, b"7");
    let bytes = two.serialize();
    // One record per entry, each exactly key byte, length byte, value.
    assert_eq!(bytes, vec![0x01, 0x03, b'S', b'T', b'A', 0x03, 0x01, b'7']);
}

#[test]
fn empty_record_set_round_trip() {
    let bytes = Tlv::new().serialize();
    assert_eq!(bytes.len(), 0);
    assert_eq!(Tlv::deserialize(&bytes).data().len(), 0);
}

#[test]
fn unknown_key_is_skipped() {
    // An unrecognized key byte heads the stream; the record behind it still
    // decodes.
    let raw = vec![0xEE, 0x01, 0x99, 0x04, 0x03, b'1', b'5', b'0'];
    let t = Tlv::deserialize(&raw);
    assert_eq!(
        t.get_bin(TlvKey::AmountInMinorCurrencyUnit),
        Some(&b"150".to_vec())
    );
    assert_eq!(t.data().len(), 1);
}

#[test]
fn duplicate_key_keeps_first_occurrence() {
    let raw = vec![0x01, 0x01, b'A', 0x01, 0x01, b'B'];
    let t = Tlv::deserialize(&raw);
    assert_eq!(t.get_bin(TlvKey::MsgName), Some(&vec![b'A']));
    assert_eq!(t.data().len(), 1);
}

#[test]
fn trailing_garbage_is_tolerated() {
    let raw = vec![0x01, 0x03, b'S', b'T', b'A', 0x99];
    let t = Tlv::deserialize(&raw);
    assert_eq!(t.get_bin(TlvKey::MsgName), Some(&b"STA".to_vec()));
    assert_eq!(t.data().len(), 1);
}

#[test]
fn frame_layout_is_exact() {
    let mut t = Tlv::new();
    t.set_bin(TlvKey::AmountInMinorCurrencyUnit, b"150");
    let frame = encode_frame("STA", t);
    assert_eq!(frame[0], 0x1F);
    assert_eq!(frame[3], 0x96);
    assert_eq!(frame[4], 0xFB);
    // Length field counts the magic pair plus the payload.
    let payload_len = frame.len() - 7;
    let declared = ((frame[1] as usize) << 8) | frame[2] as usize;
    assert_eq!(declared, payload_len + 2);
    // The trailing CRC covers everything before it.
    let crc = get_crc(frame[..frame.len() - 2].to_vec());
    assert_eq!(frame[frame.len() - 2], (crc >> 8) as u8);
    assert_eq!(frame[frame.len() - 1], (crc & 0xFF) as u8);
}

#[test]
fn frame_round_trip() {
    let mut t = Tlv::new();
    t.set_bin(TlvKey::AmountInMinorCurrencyUnit, b"150");
    t.set_bin(TlvKey::OperationNum, b"7");
    let frame = encode_frame("STA", t);
    let back = decode_frame(&frame).unwrap();
    assert_eq!(back.get_bin(TlvKey::MsgName), Some(&b"STA".to_vec()));
    assert_eq!(
        back.get_bin(TlvKey::AmountInMinorCurrencyUnit),
        Some(&b"150".to_vec())
    );
    assert_eq!(back.get_bin(TlvKey::OperationNum), Some(&b"7".to_vec()));
}

#[test]
fn frame_name_overwrites_prior_message_name() {
    let mut t = Tlv::new();
    t.set_str(TlvKey::MsgName, "VRP");
    let frame = encode_frame("IDL", t);
    let back = decode_frame(&frame).unwrap();
    assert_eq!(back.get_bin(TlvKey::MsgName), Some(&b"IDL".to_vec()));
}

#[test]
fn truncated_frame_is_rejected() {
    for n in 0..9usize {
        let buf = vec![0x1F; n];
        assert!(matches!(decode_frame(&buf), Err(FrameError::TooShort)));
    }
    // A frame around an empty record set clears the minimum comfortably:
    // seven envelope bytes plus the five-byte message-name record.
    let empty = encode_frame("IDL", Tlv::new());
    assert_eq!(empty.len(), 12);
    assert!(decode_frame(&empty).is_ok());
}

#[test]
fn decimal_parse_accepts_digits_only() {
    assert_eq!(parse_u32(&b"150".to_vec()), Some(150));
    assert_eq!(parse_u32(&b"0".to_vec()), Some(0));
    assert_eq!(parse_u32(&b"4294967295".to_vec()), Some(u32::MAX));
    assert_eq!(parse_u32(&b"4294967296".to_vec()), None);
    assert_eq!(parse_u32(&b"99999999999999999999".to_vec()), None);
    assert_eq!(parse_u32(&Vec::new()), None);
    assert_eq!(parse_u32(&b"12a".to_vec()), None);
    assert_eq!(parse_u32(&b"-5".to_vec()), None);
    assert_eq!(parse_u32(&b" 5".to_vec()), None);
}

#[test]
fn decimal_print_and_parse_round_trip() {
    for n in [0u32, 9, 10, 150, 271, 65535, u32::MAX] {
        let text = u32_to_dec(n);
        assert_eq!(text, n.to_string().into_bytes());
        assert_eq!(parse_u32(&text), Some(n));
    }
}
