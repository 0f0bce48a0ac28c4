use blog_auth::claim::{parse_claim, Payload, TokenClaims, VALIDITY_WINDOW};
use blog_auth::codec::{accept_payload, decode_token, now_seconds, TokenCodec, TokenError};
use blog_auth::escape::{push_escaped, scan_quoted};
use blog_auth::text::{push_decimal, scan_number};

fn alice_claims(iat: u64) -> TokenClaims {
    TokenClaims::issue(
        Payload {
            id: "6f1c2a9e-3b4d-4c5e-8f70-112233445566".to_string(),
            email: "alice@example.com".to_string(),
        },
        iat,
    )
}

fn codec() -> TokenCodec {
    TokenCodec::new(b"secret_key".to_vec())
}

#[test]
fn render_gives_canonical_payload() {
    let c = alice_claims(1700000000);
    assert_eq!(
        c.render(),
        "{\"sub\":\"6f1c2a9e-3b4d-4c5e-8f70-112233445566\",\"email\":\"alice@example.com\",\"iat\":1700000000,\"exp\":1700086400}"
    );
}

#[test]
fn issue_sets_window() {
    let c = alice_claims(5);
    assert_eq!(c.iat, 5);
    assert_eq!(c.exp, 5 + VALIDITY_WINDOW);
    assert_eq!(VALIDITY_WINDOW, 86400);
}

#[test]
fn parse_reads_back_render() {
    let c = alice_claims(0);
    assert_eq!(parse_claim(&c.render()), Some(c));
}

#[test]
fn parse_rejects_other_texts() {
    assert_eq!(parse_claim(""), None);
    assert_eq!(parse_claim("{\"sub\":\"a\",\"email\":\"b\",\"iat\":01,\"exp\":2}"), None);
    assert_eq!(parse_claim("{\"sub\":\"a\",\"email\":\"b\",\"iat\":1,\"exp\":2} "), None);
    assert_eq!(
        parse_claim("{\"sub\":\"a\\\"\",\"email\":\"b\",\"iat\":1,\"exp\":2}"),
        Some(TokenClaims { iat: 1, exp: 2, user: Payload { id: "a\"".to_string(), email: "b".to_string() } })
    );
    assert_eq!(parse_claim("{\"sub\":\"a\\n\",\"email\":\"b\",\"iat\":1,\"exp\":2}"), None);
    assert_eq!(parse_claim("{\"sub\":\"a\nb\",\"email\":\"b\",\"iat\":1,\"exp\":2}"), None);
    assert_eq!(parse_claim("{\"sub\":\"a\",\"email\":\"b\",\"iat\":18446744073709551616,\"exp\":2}"), None);
    assert_eq!(
        parse_claim("{\"sub\":\"a\",\"email\":\"b\",\"iat\":18446744073709551615,\"exp\":0}"),
        Some(TokenClaims {
            iat: u64::MAX,
            exp: 0,
            user: Payload { id: "a".to_string(), email: "b".to_string() }
        })
    );
}

#[test]
fn decimal_numerals() {
    let mut s = String::from("x=");
    push_decimal(&mut s, 0);
    push_decimal(&mut s, 1234567890);
    assert_eq!(s, "x=01234567890");
    assert_eq!(scan_number("ab123,", 2), Some((123, 5)));
    assert_eq!(scan_number("007", 0), None);
    assert_eq!(scan_number("x", 0), None);
}

#[test]
fn minted_token_has_three_segments() {
    let t = codec().mint(&alice_claims(1700000000)).unwrap();
    let parts: Vec<&str> = t.split('.').collect();
    assert_eq!(parts.len(), 3);
    for p in parts {
        assert!(!p.is_empty());
        assert!(p.chars().all(|c| c.is_ascii_alphanumeric() || c == '-' || c == '_'));
    }
}

#[test]
fn mint_is_deterministic() {
    let a = codec().mint(&alice_claims(42)).unwrap();
    let b = codec().mint(&alice_claims(42)).unwrap();
    assert_eq!(a, b);
}

#[test]
fn escaped_fields_round_trip() {
    let mut out = String::from("<");
    push_escaped(&mut out, "a\"b\\c\nd\u{1f}é");
    assert_eq!(out, "<a\\\"b\\\\c\\u000ad\\u001fé");
    let text = format!("{}\"rest", &out[1..]);
    assert_eq!(scan_quoted(&text, 0), Some(("a\"b\\c\nd\u{1f}é".to_string(), text.chars().count() - 5)));
    assert_eq!(scan_quoted("\\x\"", 0), None);
    assert_eq!(scan_quoted("\\u00ff\"", 0), None);
    assert_eq!(scan_quoted("abc", 0), None);
}

#[test]
fn mint_escapes_any_field() {
    let mut c = alice_claims(1);
    c.user.email = "bad\"email\\with\tcontrol".to_string();
    assert!(c.render().contains("bad\\\"email\\\\with\\u0009control"));
    let t = codec().mint(&c).unwrap();
    assert_eq!(t.split('.').count(), 3);
    assert_eq!(codec().verify(&t, 1), Ok(c));
}

#[test]
fn verify_round_trip() {
    let c = alice_claims(1700000000);
    let t = codec().mint(&c).unwrap();
    assert_eq!(codec().verify(&t, 1700000000), Ok(c.clone()));
    assert_eq!(codec().verify(&t, c.exp - 1), Ok(c));
}

#[test]
fn verify_expiry_window() {
    let iat: u64 = 1700000000;
    let c = alice_claims(iat);
    let t = codec().mint(&c).unwrap();
    assert_eq!(codec().verify(&t, iat + VALIDITY_WINDOW - 1), Ok(c));
    assert_eq!(codec().verify(&t, iat + VALIDITY_WINDOW), Err(TokenError::Expired));
    assert_eq!(codec().verify(&t, iat + VALIDITY_WINDOW + 1), Err(TokenError::Expired));
}

#[test]
fn verify_rejects_other_secret() {
    let t = codec().mint(&alice_claims(1700000000)).unwrap();
    let other = TokenCodec::new(b"another_key".to_vec());
    assert_eq!(other.verify(&t, 1700000000), Err(TokenError::BadSignature));
}

fn flip(t: &str, index: usize) -> String {
    let mut bytes = t.as_bytes().to_vec();
    bytes[index] = if bytes[index] == b'A' { b'B' } else { b'A' };
    String::from_utf8(bytes).unwrap()
}

#[test]
fn verify_rejects_tampered_tokens() {
    let t = codec().mint(&alice_claims(1700000000)).unwrap();
    let first = t.find('.').unwrap();
    let second = t.rfind('.').unwrap();
    for i in (first + 1)..second {
        let r = codec().verify(&flip(&t, i), 1700000000);
        assert!(matches!(r, Err(TokenError::BadSignature) | Err(TokenError::Malformed)), "payload byte {}", i);
    }
    for i in (second + 1)..t.len() {
        let r = codec().verify(&flip(&t, i), 1700000000);
        assert!(matches!(r, Err(TokenError::BadSignature) | Err(TokenError::Malformed)), "signature byte {}", i);
    }
}

#[test]
fn verify_rejects_garbage() {
    assert!(matches!(codec().verify("not a token", 0), Err(TokenError::Malformed) | Err(TokenError::BadSignature)));
    assert!(codec().verify("", 0).is_err());
}

#[test]
fn accept_payload_decides() {
    let c = alice_claims(100);
    assert_eq!(accept_payload(Ok(c.render()), 100), Ok(c.clone()));
    assert_eq!(accept_payload(Ok(c.render()), 100 + VALIDITY_WINDOW), Err(TokenError::Expired));
    assert_eq!(accept_payload(Ok("{}".to_string()), 0), Err(TokenError::Malformed));
    assert_eq!(accept_payload(Err(TokenError::BadSignature), 0), Err(TokenError::BadSignature));
    assert_eq!(accept_payload(Err(TokenError::Malformed), 0), Err(TokenError::Malformed));
}

#[test]
fn generate_and_decode_now() {
    let now = now_seconds();
    assert!(now > 1_600_000_000);
    let user = Payload { id: "u-1".to_string(), email: "bob@example.com".to_string() };
    let t = TokenClaims::generate_token(&codec(), user.clone()).unwrap();
    let c = decode_token(&codec(), &t).unwrap();
    assert_eq!(c.user, user);
    assert_eq!(c.exp, c.iat + VALIDITY_WINDOW);
    assert!(c.iat >= now);
}
