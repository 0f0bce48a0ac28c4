use blog_auth::claim::{Payload, TokenClaims};
use blog_auth::codec::TokenCodec;
use blog_auth::auth::IdentityContext;
use blog_auth::post::{NewPost, Post, PostStore, UpdatePost};
use blog_auth::response::Failure;

fn caller(id: &str) -> IdentityContext {
    IdentityContext {
        subject: id.to_string(),
        claim: TokenClaims::issue(Payload { id: id.to_string(), email: format!("{}@example.com", id) }, 0),
    }
}

fn new_post(title: &str) -> NewPost {
    NewPost {
        title: title.to_string(),
        content: "content of twenty chars or more".to_string(),
        user_id: Some("someone-else".to_string()),
    }
}

#[test]
fn create_sets_owner_from_caller() {
    let mut posts = PostStore::new();
    let p = posts.create(new_post("Hello world"), &caller("u1")).unwrap();
    assert_eq!(p.id, 1);
    assert_eq!(p.user_id, Some("u1".to_string()));
    assert_eq!(p.title, "Hello world");
    let q = posts.create(new_post("Second one"), &caller("u2")).unwrap();
    assert_eq!(q.id, 2);
}

#[test]
fn create_validates_lengths() {
    let mut posts = PostStore::new();
    assert_eq!(posts.create(new_post("abcd"), &caller("u1")), Err(Failure::ValidationFailed));
    let short = NewPost { title: "Fine title".to_string(), content: "too short".to_string(), user_id: None };
    assert_eq!(posts.create(short, &caller("u1")), Err(Failure::ValidationFailed));
    assert_eq!(posts.get_all_post(1), Ok(Vec::<Post>::new()));
}

#[test]
fn pages_of_ten_by_id() {
    let mut posts = PostStore::new();
    for i in 0..23 {
        posts.create(new_post(&format!("Title {}", i)), &caller("u1")).unwrap();
    }
    let first = posts.get_all_post(1).unwrap();
    assert_eq!(first.len(), 10);
    assert_eq!(first[0].id, 1);
    assert_eq!(first[9].id, 10);
    let third = posts.get_all_post(3).unwrap();
    assert_eq!(third.iter().map(|p| p.id).collect::<Vec<i32>>(), vec![21, 22, 23]);
    assert_eq!(posts.get_all_post(4), Ok(Vec::<Post>::new()));
    assert_eq!(posts.get_all_post(0), Err(Failure::StoreUnavailable));
    assert_eq!(posts.get_all_post(-3), Err(Failure::StoreUnavailable));
    assert_eq!(posts.get_all_post(i64::MAX), Ok(Vec::<Post>::new()));
}

#[test]
fn get_one_finds_or_not_found() {
    let mut posts = PostStore::new();
    let p = posts.create(new_post("Hello world"), &caller("u1")).unwrap();
    assert_eq!(posts.get_one_post(p.id), Ok(p));
    assert_eq!(posts.get_one_post(99), Err(Failure::NotFound));
}

#[test]
fn update_changes_only_that_post() {
    let mut posts = PostStore::new();
    let a = posts.create(new_post("First post"), &caller("u1")).unwrap();
    let b = posts.create(new_post("Second post"), &caller("u1")).unwrap();
    let u = posts
        .update_post_by_id(a.id, &caller("u1"), UpdatePost { title: Some("Renamed".to_string()), content: None })
        .unwrap();
    assert_eq!(u.title, "Renamed");
    assert_eq!(u.content, a.content);
    assert_eq!(posts.get_one_post(a.id), Ok(u));
    assert_eq!(posts.get_one_post(b.id), Ok(b));
    assert_eq!(
        posts.update_post_by_id(a.id, &caller("u2"), UpdatePost { title: None, content: None }),
        Err(Failure::NotFound)
    );
}

#[test]
fn delete_is_owner_scoped() {
    let mut posts = PostStore::new();
    let a = posts.create(new_post("First post"), &caller("u1")).unwrap();
    assert_eq!(posts.delete_post_by_id(a.id, &caller("u2")), Err(Failure::NotFound));
    assert_eq!(posts.delete_post_by_id(77, &caller("u1")), Err(Failure::NotFound));
    assert_eq!(posts.delete_post_by_id(a.id, &caller("u1")), Ok(()));
    assert_eq!(posts.get_one_post(a.id), Err(Failure::NotFound));
    let b = posts.create(new_post("Another post"), &caller("u1")).unwrap();
    assert_eq!(b.id, 2);
}

#[test]
fn authorized_operations_need_a_valid_token() {
    let codec = TokenCodec::new(b"post secret".to_vec());
    let claims = TokenClaims::issue(Payload { id: "u1".to_string(), email: "u1@example.com".to_string() }, 100);
    let header = format!("Bearer {}", codec.mint(&claims).unwrap());
    let mut posts = PostStore::new();
    assert_eq!(posts.create_authorized(&codec, None, 100, new_post("Hello world")), Err(Failure::Unauthenticated));
    assert_eq!(posts.get_all_post(1), Ok(Vec::<Post>::new()));
    let p = posts.create_authorized(&codec, Some(header.as_str()), 100, new_post("Hello world")).unwrap();
    assert_eq!(p.user_id, Some("u1".to_string()));
    assert_eq!(
        posts.update_authorized(&codec, Some("Bearer nope"), 100, p.id, UpdatePost { title: None, content: None }),
        Err(Failure::Unauthenticated)
    );
    let u = posts
        .update_authorized(&codec, Some(header.as_str()), 100, p.id, UpdatePost { title: Some("New title".to_string()), content: None })
        .unwrap();
    assert_eq!(u.title, "New title");
    assert_eq!(posts.delete_authorized(&codec, None, 100, p.id), Err(Failure::Unauthenticated));
    assert_eq!(posts.delete_authorized(&codec, Some(header.as_str()), 100 + 86400, p.id), Err(Failure::Unauthenticated));
    assert_eq!(posts.delete_authorized(&codec, Some(header.as_str()), 100, p.id), Ok(()));
    assert_eq!(posts.get_one_post(p.id), Err(Failure::NotFound));
}
