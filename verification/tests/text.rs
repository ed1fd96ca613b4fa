//! The text codec: exact encodings, round-trips, order preservation, and
//! strict rejection of malformed input.
use libxid::{new_generator, CodecError, HostEnv, ID};

fn sample_ids() -> Vec<ID> {
    vec![
        ID::from_parts(0, &[0, 0, 0], 0, 0),
        ID::from_parts(0, &[0, 0, 0], 0, 1),
        ID::from_parts(0, &[0, 0, 0], 0, 0xFF_FFFF),
        ID::from_parts(1, &[0, 0, 0], 0, 0),
        ID::from_parts(0x4d88_e15b, &[0x60, 0xf4, 0x86], 0xe428, 0x41_2dc9),
        ID::from_parts(0x1234_5678, &[0x9a, 0xbc, 0xde], 0xf012, 0x34_5678),
        ID::from_parts(0xFFFF_FFFF, &[0xFF, 0xFF, 0xFF], 0xFFFF, 0xFF_FFFF),
    ]
}

#[test]
fn test_encode_known_values() {
    // A published example of the format, and the two extremes.
    let id = ID::from_parts(0x4d88_e15b, &[0x60, 0xf4, 0x86], 0xe428, 0x41_2dc9);
    assert_eq!(id.encode(), "9m4e2mr0ui3e8a215n4g");

    let zero = ID::from_parts(0, &[0, 0, 0], 0, 0);
    assert_eq!(zero.encode(), "00000000000000000000");

    let max = ID::from_parts(0xFFFF_FFFF, &[0xFF, 0xFF, 0xFF], 0xFFFF, 0xFF_FFFF);
    assert_eq!(max.encode(), "vvvvvvvvvvvvvvvvvvvg");

    assert_eq!(
        ID::from_parts(0x1234_5678, &[0x9a, 0xbc, 0xde], 0xf012, 0x34_5678).encode(),
        "28q5cu4qnjff04hkaps0"
    );
}

#[test]
fn test_encode_length_and_alphabet() {
    let mut g = new_generator(HostEnv { os_pid: 77, cpuset: None, platform_id: None });
    let mut ids = sample_ids();
    for _ in 0..64 {
        ids.push(g.new_id().unwrap());
    }
    for id in &ids {
        let s = id.encode();
        assert_eq!(s.len(), 20);
        for c in s.chars() {
            assert!(('0' <= c && c <= '9') || ('a' <= c && c <= 'v'), "bad char {}", c);
        }
    }
}

#[test]
fn test_decode_roundtrip() {
    for id in sample_ids() {
        let s = id.encode();
        let back = ID::decode(s.as_str()).unwrap();
        assert_eq!(back, id);
        assert_eq!(back.time(), id.time());
        assert_eq!(back.machine(), id.machine());
        assert_eq!(back.pid(), id.pid());
        assert_eq!(back.counter(), id.counter());
    }
}

#[test]
fn test_decode_then_encode_restores_string() {
    for s in ["9m4e2mr0ui3e8a215n4g", "00000000000000000000", "vvvvvvvvvvvvvvvvvvvg"] {
        let id = ID::decode(s).unwrap();
        assert_eq!(id.encode(), s);
    }
}

#[test]
fn test_order_preservation() {
    let ids = sample_ids();
    for a in &ids {
        for b in &ids {
            let sa = a.encode();
            let sb = b.encode();
            assert_eq!(a < b, sa < sb, "byte order and text order disagree");
            assert_eq!(a == b, sa == sb);
        }
    }
}

#[test]
fn test_decode_rejects_bad_length() {
    assert_eq!(ID::decode("").unwrap_err(), CodecError::InvalidLength);
    assert_eq!(ID::decode("0").unwrap_err(), CodecError::InvalidLength);
    assert_eq!(ID::decode("9m4e2mr0ui3e8a215n4").unwrap_err(), CodecError::InvalidLength);
    assert_eq!(ID::decode("9m4e2mr0ui3e8a215n4g0").unwrap_err(), CodecError::InvalidLength);
}

#[test]
fn test_decode_rejects_bad_characters() {
    // Uppercase, letters past `v`, punctuation, non-ASCII: all refused, never
    // silently substituted.
    assert_eq!(ID::decode("9M4E2MR0UI3E8A215N4G").unwrap_err(), CodecError::InvalidCharacter);
    assert_eq!(ID::decode("9m4e2mr0ui3e8a215n4w").unwrap_err(), CodecError::InvalidCharacter);
    assert_eq!(ID::decode("zzzzzzzzzzzzzzzzzzzz").unwrap_err(), CodecError::InvalidCharacter);
    assert_eq!(ID::decode("9m4e2mr0-i3e8a215n4g").unwrap_err(), CodecError::InvalidCharacter);
    assert_eq!(ID::decode("9m4e2mr0ui3e8a215n4\u{e9}").unwrap_err(), CodecError::InvalidCharacter);
}

#[test]
fn test_decode_rejects_noncanonical_tail() {
    // All characters are in the alphabet, but the final one carries bits
    // below the 96-bit payload: only `0` and `g` are canonical there.
    assert_eq!(ID::decode("vvvvvvvvvvvvvvvvvvvv").unwrap_err(), CodecError::NonCanonical);
    assert_eq!(ID::decode("00000000000000000001").unwrap_err(), CodecError::NonCanonical);
    assert_eq!(ID::decode("9m4e2mr0ui3e8a215n48").unwrap_err(), CodecError::NonCanonical);
}
