use blog_auth::codec::TokenCodec;
use blog_auth::auth::authenticate;
use blog_auth::post::{NewPost, PostStore, UpdatePost};
use blog_auth::response::Failure;
use blog_auth::session::{email_is_valid, text_eq, CredentialStore};

fn codec() -> TokenCodec {
    TokenCodec::new(b"session secret".to_vec())
}

#[test]
fn register_returns_identity_without_password() {
    let mut store = CredentialStore::new();
    let p = store.register("alice@example.com", "password1234567890").unwrap();
    assert_eq!(p.email, "alice@example.com");
    assert_eq!(p.id.len(), 36);
    assert_eq!(store.len(), 1);
    let rec = store.find_by_email("alice@example.com").unwrap();
    assert_eq!(rec.id, p.id);
    assert_ne!(rec.password_hash, "password1234567890");
    assert!(rec.password_hash.starts_with("$argon2"));
}

#[test]
fn register_twice_conflicts() {
    let mut store = CredentialStore::new();
    store.register("alice@example.com", "password1234567890").unwrap();
    assert_eq!(store.register("alice@example.com", "another-password"), Err(Failure::Conflict));
    assert_eq!(store.len(), 1);
}

#[test]
fn register_validates_input() {
    let mut store = CredentialStore::new();
    assert_eq!(store.register("alice@example.com", "short"), Err(Failure::ValidationFailed));
    assert_eq!(store.register("not-an-email", "password1234567890"), Err(Failure::ValidationFailed));
    assert_eq!(store.register("@example.com", "password1234567890"), Err(Failure::ValidationFailed));
    assert_eq!(store.register("a\"b@example.com", "password1234567890"), Err(Failure::ValidationFailed));
    assert_eq!(store.len(), 0);
    assert!(email_is_valid("alice@example.com"));
    assert!(!email_is_valid("a b@example.com"));
    assert!(!email_is_valid("ab@"));
    assert!(text_eq("abc", "abc"));
    assert!(!text_eq("abc", "abd"));
}

#[test]
fn login_issues_token() {
    let mut store = CredentialStore::new();
    let p = store.register("alice@example.com", "password1234567890").unwrap();
    let t = store.login(&codec(), "alice@example.com", "password1234567890", 1700000000).unwrap();
    assert_eq!(t.split('.').count(), 3);
    let c = codec().verify(&t, 1700000000).unwrap();
    assert_eq!(c.user.id, p.id);
    assert_eq!(c.user.email, "alice@example.com");
    assert_eq!(c.iat, 1700000000);
}

#[test]
fn login_failures_are_identical() {
    let mut store = CredentialStore::new();
    store.register("alice@example.com", "password1234567890").unwrap();
    let unknown = store.login(&codec(), "nobody@example.com", "password1234567890", 1).unwrap_err();
    let wrong = store.login(&codec(), "alice@example.com", "wrong-password-123", 1).unwrap_err();
    assert_eq!(unknown, Failure::InvalidCredentials);
    assert_eq!(unknown, wrong);
    assert_eq!(unknown.respond(), wrong.respond());
}

#[test]
fn scenario_register_login_delete_foreign_post() {
    let mut store = CredentialStore::new();
    let alice = store.register("alice@example.com", "password1234567890").unwrap();
    assert_eq!(alice.email, "alice@example.com");
    assert_eq!(store.register("alice@example.com", "password1234567890"), Err(Failure::Conflict));
    store.register("bob@example.com", "bobs-password-123").unwrap();

    let alice_token = store.login(&codec(), "alice@example.com", "password1234567890", 1700000000).unwrap();
    let segments: Vec<&str> = alice_token.split('.').collect();
    assert_eq!(segments.len(), 3);
    assert!(segments.iter().all(|s| !s.is_empty()));
    let bob_token = store.login(&codec(), "bob@example.com", "bobs-password-123", 1700000000).unwrap();

    let alice_header = format!("Bearer {}", alice_token);
    let bob_header = format!("Bearer {}", bob_token);
    let alice_ctx = authenticate(&codec(), Some(alice_header.as_str()), 1700000100).unwrap();
    let bob_ctx = authenticate(&codec(), Some(bob_header.as_str()), 1700000100).unwrap();
    assert_eq!(alice_ctx.subject, alice.id);

    let mut posts = PostStore::new();
    let bobs = posts
        .create(
            NewPost {
                title: "Bob's post".to_string(),
                content: "Some content that is long enough".to_string(),
                user_id: None,
            },
            &bob_ctx,
        )
        .unwrap();
    assert_eq!(posts.delete_post_by_id(bobs.id, &alice_ctx), Err(Failure::NotFound));
    assert_eq!(
        posts.update_post_by_id(bobs.id, &alice_ctx, UpdatePost { title: Some("taken".to_string()), content: None }),
        Err(Failure::NotFound)
    );
    assert_eq!(posts.get_one_post(bobs.id), Ok(bobs.clone()));
    assert_eq!(posts.delete_post_by_id(bobs.id, &bob_ctx), Ok(()));
    assert_eq!(posts.get_one_post(bobs.id), Err(Failure::NotFound));
}
