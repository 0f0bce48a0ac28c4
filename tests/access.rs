use blog_auth::claim::{Payload, TokenClaims, VALIDITY_WINDOW};
use blog_auth::codec::TokenCodec;
use blog_auth::auth::{authenticate, bearer_token, guard};
use blog_auth::response::Failure;

fn codec() -> TokenCodec {
    TokenCodec::new(b"access secret".to_vec())
}

fn token_at(iat: u64) -> String {
    let c = TokenClaims::issue(Payload { id: "user-7".to_string(), email: "carol@example.com".to_string() }, iat);
    codec().mint(&c).unwrap()
}

#[test]
fn bearer_header_parsing() {
    assert_eq!(bearer_token("Bearer abc.def.ghi"), Some("abc.def.ghi".to_string()));
    assert_eq!(bearer_token("Bearer "), None);
    assert_eq!(bearer_token("bearer abc"), None);
    assert_eq!(bearer_token("Basic abc"), None);
    assert_eq!(bearer_token(""), None);
}

#[test]
fn guard_without_token_never_runs_operation() {
    let mut ran = false;
    let r = guard(&codec(), None, 1000, |_ctx| {
        ran = true;
        1
    });
    assert!(!ran);
    let resp = r.unwrap_err();
    assert_eq!(resp.status, 401);
    assert_eq!(resp, Failure::Unauthenticated.respond());
}

#[test]
fn guard_with_valid_token_runs_operation_as_subject() {
    let header = format!("Bearer {}", token_at(1000));
    let r = guard(&codec(), Some(header.as_str()), 1000, |ctx| ctx.subject.clone());
    assert_eq!(r, Ok("user-7".to_string()));
    let ctx = authenticate(&codec(), Some(header.as_str()), 1000).unwrap();
    assert_eq!(ctx.subject, "user-7");
    assert_eq!(ctx.claim.user.email, "carol@example.com");
}

#[test]
fn guard_refusals_look_alike() {
    let expired = format!("Bearer {}", token_at(1000));
    let forged = format!("Bearer {}", TokenCodec::new(b"other".to_vec()).mint(&TokenClaims::issue(
        Payload { id: "user-7".to_string(), email: "carol@example.com".to_string() },
        1000,
    )).unwrap());
    let now = 1000 + VALIDITY_WINDOW;
    let a = authenticate(&codec(), Some(expired.as_str()), now).unwrap_err();
    let b = authenticate(&codec(), Some(forged.as_str()), 1000).unwrap_err();
    let c = authenticate(&codec(), Some("Bearer garbage"), 1000).unwrap_err();
    let d = authenticate(&codec(), None, 1000).unwrap_err();
    assert_eq!(a, Failure::Unauthenticated);
    assert_eq!(b, Failure::Unauthenticated);
    assert_eq!(c, Failure::Unauthenticated);
    assert_eq!(d, Failure::Unauthenticated);
}

#[test]
fn failure_responses() {
    let r = Failure::Unauthenticated.respond();
    assert_eq!(r.status, 401);
    assert_eq!(r.body, "{\"status\":\"fail\",\"message\":\"unauthorized\"}");
    assert_eq!(Failure::ValidationFailed.respond().status, 400);
    assert_eq!(Failure::Conflict.respond().status, 409);
    assert_eq!(Failure::NotFound.respond().status, 404);
    assert_eq!(Failure::StoreUnavailable.respond().status, 500);
    assert_eq!(Failure::InvalidCredentials.respond().status, 401);
}
