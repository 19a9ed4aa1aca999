use dfsnode::hexnum::parse_hex_u32;
use hmac::{Hmac, KeyInit, Mac};
use sha2::Sha256;
use dfsnode::signature::{create_signature, get_expire_time, verify_signature, verify_signature_at, SignatureError};

fn query_of(token: &str) -> String {
    let mut q = String::from("$=");
    q.push_str(token);
    q
}

#[test]
fn round_trip_no_ranges() {
    let now: u64 = 1_700_000_000;
    let sig = create_signature("/files/a.bin", (now + 600) as u32, "secret", None);
    assert_eq!(sig.len(), 72);
    let q = query_of(&sig);
    let r = verify_signature_at("/files/a.bin", Some(&q), "secret", None, now);
    assert_eq!(r, Ok(()));
}

#[test]
fn round_trip_with_ranges() {
    let now: u64 = 1_700_000_000;
    let ranges = [(0u32, 99u32), (200u32, 4095u32)];
    let sig = create_signature("/files/a.bin", (now + 600) as u32, "secret", Some(&ranges));
    assert_eq!(sig.len(), 72 + 32);
    let q = query_of(&sig);
    let r = verify_signature_at(
        "/files/a.bin",
        Some(&q),
        "secret",
        Some("bytes=0-99,200-4095"),
        now,
    );
    assert_eq!(r, Ok(()));
}

#[test]
fn expire_boundary_just_past_rejected() {
    let now: u64 = 1_700_000_000;
    let sig = create_signature("/f", (now - 1) as u32, "k", None);
    let q = query_of(&sig);
    assert_eq!(
        verify_signature_at("/f", Some(&q), "k", None, now),
        Err(SignatureError::Expired)
    );
}

#[test]
fn expire_boundary_just_ahead_accepted() {
    let now: u64 = 1_700_000_000;
    let sig = create_signature("/f", (now + 1) as u32, "k", None);
    let q = query_of(&sig);
    assert_eq!(verify_signature_at("/f", Some(&q), "k", None, now), Ok(()));
}

#[test]
fn expire_equal_now_accepted() {
    let now: u64 = 1_700_000_000;
    let sig = create_signature("/f", now as u32, "k", None);
    let q = query_of(&sig);
    assert_eq!(verify_signature_at("/f", Some(&q), "k", None, now), Ok(()));
}

#[test]
fn tamper_any_mac_digit_rejected() {
    let now: u64 = 1_700_000_000;
    let sig = create_signature("/f", (now + 60) as u32, "k", None);
    let bytes = sig.as_bytes();
    for i in 8..72 {
        let mut flipped: Vec<u8> = bytes.to_vec();
        // replace with a different lowercase hex digit
        flipped[i] = if bytes[i] == b'0' { b'1' } else { b'0' };
        if flipped[i] == bytes[i] {
            continue;
        }
        let tok = String::from_utf8(flipped).unwrap();
        let q = query_of(&tok);
        assert_eq!(
            verify_signature_at("/f", Some(&q), "k", None, now),
            Err(SignatureError::MacMismatch),
            "position {} not detected",
            i
        );
    }
}

#[test]
fn wrong_secret_rejected() {
    let now: u64 = 1_700_000_000;
    let sig = create_signature("/f", (now + 60) as u32, "k", None);
    let q = query_of(&sig);
    assert_eq!(
        verify_signature_at("/f", Some(&q), "other", None, now),
        Err(SignatureError::MacMismatch)
    );
}

#[test]
fn wrong_path_rejected() {
    let now: u64 = 1_700_000_000;
    let sig = create_signature("/f", (now + 60) as u32, "k", None);
    let q = query_of(&sig);
    assert_eq!(
        verify_signature_at("/g", Some(&q), "k", None, now),
        Err(SignatureError::MacMismatch)
    );
}

#[test]
fn range_cross_validation() {
    let now: u64 = 1_700_000_000;
    let ranges = [(0u32, 99u32)];
    let sig = create_signature("/f", (now + 60) as u32, "k", Some(&ranges));
    let q = query_of(&sig);
    // the wrong range is rejected
    assert_eq!(
        verify_signature_at("/f", Some(&q), "k", Some("bytes=100-199"), now),
        Err(SignatureError::RangeMismatch)
    );
    // a missing Range header is rejected
    assert_eq!(
        verify_signature_at("/f", Some(&q), "k", None, now),
        Err(SignatureError::Malformed)
    );
    // only the exact range is accepted
    assert_eq!(
        verify_signature_at("/f", Some(&q), "k", Some("bytes=0-99"), now),
        Ok(())
    );
}

#[test]
fn empty_range_signature_rejects_any_header() {
    let now: u64 = 1_700_000_000;
    let sig = create_signature("/f", (now + 60) as u32, "k", None);
    let q = query_of(&sig);
    assert_eq!(
        verify_signature_at("/f", Some(&q), "k", Some("bytes=0-10"), now),
        Err(SignatureError::Malformed)
    );
    assert_eq!(
        verify_signature_at("/f", Some(&q), "k", Some("bytes=0-"), now),
        Err(SignatureError::Malformed)
    );
    assert_eq!(
        verify_signature_at("/f", Some(&q), "k", Some("not-a-range"), now),
        Err(SignatureError::Malformed)
    );
}

#[test]
fn open_ended_range_bounds() {
    let now: u64 = 1_700_000_000;
    // an empty start means 0, an empty end means the largest 32-bit value
    let ranges = [(0u32, u32::MAX)];
    let sig = create_signature("/f", (now + 60) as u32, "k", Some(&ranges));
    let q = query_of(&sig);
    assert_eq!(
        verify_signature_at("/f", Some(&q), "k", Some("bytes=-"), now),
        Ok(())
    );
    assert_eq!(
        verify_signature_at("/f", Some(&q), "k", Some("bytes=0-"), now),
        Ok(())
    );
    assert_eq!(
        verify_signature_at("/f", Some(&q), "k", Some(" bytes=0-"), now),
        Err(SignatureError::Malformed)
    );
}

#[test]
fn missing_token_cases() {
    let now: u64 = 1_700_000_000;
    assert_eq!(
        verify_signature_at("/f", None, "k", None, now),
        Err(SignatureError::MissingToken)
    );
    assert_eq!(
        verify_signature_at("/f", Some(""), "k", None, now),
        Err(SignatureError::MissingToken)
    );
    assert_eq!(
        verify_signature_at("/f", Some("a=b&c=d"), "k", None, now),
        Err(SignatureError::MissingToken)
    );
    // a `$` key without a value carries no token
    assert_eq!(
        verify_signature_at("/f", Some("$&a=b"), "k", None, now),
        Err(SignatureError::MissingToken)
    );
}

#[test]
fn first_dollar_parameter_wins() {
    let now: u64 = 1_700_000_000;
    let sig = create_signature("/f", (now + 60) as u32, "k", None);
    let mut q = String::from("a=b&$=");
    q.push_str(&sig);
    q.push_str("&$=junk");
    assert_eq!(verify_signature_at("/f", Some(&q), "k", None, now), Ok(()));
    // with the junk one first, the valid one is not considered
    let mut q2 = String::from("$=junk&$=");
    q2.push_str(&sig);
    assert_eq!(
        verify_signature_at("/f", Some(&q2), "k", None, now),
        Err(SignatureError::Malformed)
    );
}

#[test]
fn percent_encoded_key_finds_token() {
    let now: u64 = 1_700_000_000;
    let sig = create_signature("/f", (now + 60) as u32, "k", None);
    // %24 decodes to `$`, so the key matches
    let mut q = String::from("%24=");
    q.push_str(&sig);
    assert_eq!(verify_signature_at("/f", Some(&q), "k", None, now), Ok(()));
}

#[test]
fn malformed_tokens() {
    let now: u64 = 1_700_000_000;
    // too short
    assert_eq!(
        verify_signature_at("/f", Some("$=abcdef"), "k", None, now),
        Err(SignatureError::Malformed)
    );
    // expiry digits not hex
    let mut tok = String::from("zzzzzzzz");
    tok.push_str(&"a".repeat(64));
    let q = query_of(&tok);
    assert_eq!(
        verify_signature_at("/f", Some(&q), "k", None, now),
        Err(SignatureError::Malformed)
    );
    // range tail not a whole 16-digit group
    let mut tok2 = String::from("ffffffff");
    tok2.push_str(&"a".repeat(64));
    tok2.push_str("0123");
    let q2 = query_of(&tok2);
    assert_eq!(
        verify_signature_at("/f", Some(&q2), "k", None, now),
        Err(SignatureError::Malformed)
    );
    // range tail right length but not hex
    let mut tok3 = String::from("ffffffff");
    tok3.push_str(&"a".repeat(64));
    tok3.push_str("zzzzzzzzzzzzzzzz");
    let q3 = query_of(&tok3);
    assert_eq!(
        verify_signature_at("/f", Some(&q3), "k", None, now),
        Err(SignatureError::Malformed)
    );
}

#[test]
fn signature_format_matches_reference_mac() {
    // recompute the token with the hmac, sha2 and hex crates directly
    let expire: u32 = 0x6553_f080;
    let sig = create_signature("/data/x", expire, "topsecret", Some(&[(16u32, 32u32)]));
    let message = format!("/data/x\n{:08x}\n{:08x}{:08x}", expire, 16u32, 32u32);
    let mut mac = <Hmac<Sha256>>::new_from_slice(b"topsecret").unwrap();
    mac.update(message.as_bytes());
    let digest = mac.finalize().into_bytes();
    let expected = format!("{:08x}{}{:08x}{:08x}", expire, hex::encode(digest), 16u32, 32u32);
    assert_eq!(sig, expected);
}

#[test]
fn status_codes_by_error_kind() {
    assert_eq!(SignatureError::MissingToken.status_code(), 402);
    assert_eq!(SignatureError::Malformed.status_code(), 400);
    assert_eq!(SignatureError::Expired.status_code(), 402);
    assert_eq!(SignatureError::MacMismatch.status_code(), 402);
    assert_eq!(SignatureError::RangeMismatch.status_code(), 400);
}

#[test]
fn verify_signature_uses_the_clock() {
    // a token that expired long ago is rejected against the real clock
    let sig = create_signature("/f", 10, "k", None);
    let q = query_of(&sig);
    assert_eq!(
        verify_signature("/f", Some(&q), "k", None),
        Err(SignatureError::Expired)
    );
}

#[test]
fn expire_time_is_in_the_future() {
    let e = get_expire_time(3600);
    // the clock reads well past 2001 and well before the 32-bit rollover
    assert!(e > 1_000_000_000);
}

#[test]
fn parse_hex_u32_cases() {
    assert_eq!(parse_hex_u32(b"00000000"), Some(0));
    assert_eq!(parse_hex_u32(b"000000ff"), Some(255));
    assert_eq!(parse_hex_u32(b"000000FF"), Some(255));
    assert_eq!(parse_hex_u32(b"deadbeef"), Some(0xdead_beef));
    assert_eq!(parse_hex_u32(b"ffffffff"), Some(u32::MAX));
    assert_eq!(parse_hex_u32(b"1234567"), None);
    assert_eq!(parse_hex_u32(b"123456789"), None);
    assert_eq!(parse_hex_u32(b"1234567g"), None);
    assert_eq!(parse_hex_u32(b""), None);
}
