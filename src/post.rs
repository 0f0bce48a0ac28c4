//! Posts, and the operations on them that require authentication: a post can be
//! changed or removed only by the account that wrote it.
use vstd::prelude::*;
use vstd::string::*;
use crate::auth::{IdentityContext, admitted_identity, authenticate, header_view};
use crate::codec::TokenCodec;
use crate::response::Failure;

verus! {

/// Posts on one page of the listing.
pub const PAGE_SIZE: i64 = 10;

pub const MIN_TITLE_LEN: usize = 5;

pub const MIN_CONTENT_LEN: usize = 20;

#[derive(Clone, Debug, PartialEq, Eq)]
pub struct Post {
    pub id: i32,
    pub title: String,
    pub content: String,
    pub user_id: Option<String>,
}

/// The input of a new post. Whatever `user_id` it carries is ignored: the
/// owner is the authenticated caller.
#[derive(Clone, Debug, PartialEq, Eq)]
pub struct NewPost {
    pub title: String,
    pub content: String,
    pub user_id: Option<String>,
}

/// The fields of a post to change; a missing one stays as it is.
#[derive(Clone, Debug, PartialEq, Eq)]
pub struct UpdatePost {
    pub title: Option<String>,
    pub content: Option<String>,
}

pub struct PostView {
    pub id: int,
    pub title: Seq<char>,
    pub content: Seq<char>,
    pub owner: Option<Seq<char>>,
}

pub open spec fn owner_view(o: Option<String>) -> Option<Seq<char>> {
    match o {
        Some(s) => Some(s@),
        None => None,
    }
}

impl View for Post {
    type V = PostView;

    open spec fn view(&self) -> PostView {
        PostView {
            id: self.id as int,
            title: self.title@,
            content: self.content@,
            owner: owner_view(self.user_id),
        }
    }
}

pub open spec fn valid_new_post(title: Seq<char>, content: Seq<char>) -> bool {
    title.len() >= MIN_TITLE_LEN && content.len() >= MIN_CONTENT_LEN
}

/// The index of the post with this id.
pub open spec fn index_of(posts: Seq<PostView>, id: int) -> Option<int> {
    if exists|i: int| 0 <= i < posts.len() && #[trigger] posts[i].id == id {
        Some(choose|i: int| 0 <= i < posts.len() && #[trigger] posts[i].id == id)
    } else {
        None
    }
}

/// The index of the post with this id, if `owner` wrote it.
pub open spec fn owned_index(posts: Seq<PostView>, id: int, owner: Seq<char>) -> Option<int> {
    match index_of(posts, id) {
        Some(i) => if posts[i].owner == Some(owner) {
            Some(i)
        } else {
            None
        },
        None => None,
    }
}

/// The post after an update: each given field replaces the old one.
pub open spec fn updated(p: PostView, title: Option<Seq<char>>, content: Option<Seq<char>>) -> PostView {
    PostView {
        title: match title {
            Some(t) => t,
            None => p.title,
        },
        content: match content {
            Some(c) => c,
            None => p.content,
        },
        ..p
    }
}

fn copy_text(o: &Option<String>) -> (r: Option<String>)
    ensures
        owner_view(r) == owner_view(*o),
{
    match o {
        Some(s) => Some(s.clone()),
        None => None,
    }
}

fn copy_post(p: &Post) -> (r: Post)
    ensures
        r@ == p@,
{
    Post { id: p.id, title: p.title.clone(), content: p.content.clone(), user_id: copy_text(&p.user_id) }
}

/// All posts, ordered by id, with ids below `next_id`.
pub struct PostStore {
    posts: Vec<Post>,
    next_id: i32,
}

impl View for PostStore {
    type V = Seq<PostView>;

    closed spec fn view(&self) -> Seq<PostView> {
        self.posts@.map_values(|p: Post| p@)
    }
}

impl PostStore {
    pub closed spec fn wf(&self) -> bool {
        &&& self.next_id >= 1
        &&& forall|i: int, j: int| 0 <= i < j < self@.len() ==> self@[i].id < self@[j].id
        &&& forall|i: int| 0 <= i < self@.len() ==> 1 <= #[trigger] self@[i].id < self.next_id
    }

    /// The id that the next new post gets.
    pub closed spec fn next_id(&self) -> int {
        self.next_id as int
    }

    /// The store keeps its posts in ascending id order, so every page is too.
    pub proof fn lemma_ids_ascending(&self)
        requires
            self.wf(),
        ensures
            forall|i: int, j: int| 0 <= i < j < self@.len() ==> self@[i].id < self@[j].id,
    {
    }

    pub fn new() -> (r: PostStore)
        ensures
            r.wf(),
            r@ == Seq::<PostView>::empty(),
    {
        let r = PostStore { posts: Vec::new(), next_id: 1 };
        assert(r@ =~= Seq::<PostView>::empty());
        r
    }

    fn find(&self, id: i32) -> (r: Option<usize>)
        requires
            self.wf(),
        ensures
            match index_of(self@, id as int) {
                Some(i) => r matches Some(k) && k as int == i,
                None => r is None,
            },
    {
        let n: usize = self.posts.len();
        let mut i: usize = 0;
        while i < n
            invariant
                self.wf(),
                n == self@.len(),
                n == self.posts@.len(),
                i <= n,
                forall|k: int| 0 <= k < i ==> (#[trigger] self@[k]).id != id,
            decreases n - i,
        {
            assert(self@[i as int] == self.posts@[i as int]@);
            if self.posts[i].id == id {
                proof {
                    let j = choose|j: int| 0 <= j < self@.len() && #[trigger] self@[j].id == id;
                    if j < i {
                    } else if j > i {
                        assert(self@[i as int].id < self@[j].id);
                    }
                }
                return Some(i);
            }
            i = i + 1;
        }
        None
    }

    fn find_owned(&self, id: i32, owner: &str) -> (r: Option<usize>)
        requires
            self.wf(),
        ensures
            match owned_index(self@, id as int, owner@) {
                Some(i) => r matches Some(k) && k as int == i,
                None => r is None,
            },
    {
        match self.find(id) {
            None => None,
            Some(i) => {
                assert(self@[i as int] == self.posts@[i as int]@);
                match &self.posts[i].user_id {
                    Some(u) => {
                        if crate::session::text_eq(u.as_str(), owner) {
                            Some(i)
                        } else {
                            None
                        }
                    },
                    None => None,
                }
            },
        }
    }

    /// Stores a new post owned by the caller.
    pub fn create(&mut self, body: NewPost, caller: &IdentityContext) -> (r: Result<Post, Failure>)
        requires
            old(self).wf(),
        ensures
            final(self).wf(),
            !valid_new_post(body.title@, body.content@) ==> r == Err::<Post, Failure>(
                Failure::ValidationFailed,
            ),
            r matches Ok(p) ==> p.title@ == body.title@ && p.content@ == body.content@ && p.user_id
                == Some(caller.subject) && final(self)@ == old(self)@.push(p@) && index_of(old(self)@, p.id as int) is None,
            r matches Err(f) ==> final(self)@ == old(self)@ && (f == Failure::ValidationFailed || f
                == Failure::StoreUnavailable),
            valid_new_post(body.title@, body.content@) && old(self).next_id() < i32::MAX ==> r is Ok,
    {
        if body.title.as_str().unicode_len() < MIN_TITLE_LEN || body.content.as_str().unicode_len()
            < MIN_CONTENT_LEN {
            return Err(Failure::ValidationFailed);
        }
        if self.next_id == i32::MAX {
            return Err(Failure::StoreUnavailable);
        }
        let id = self.next_id;
        let post = Post { id, title: body.title, content: body.content, user_id: Some(caller.subject.clone()) };
        let ghost before = self@;
        self.posts.push(copy_post(&post));
        self.next_id = id + 1;
        proof {
            assert(self@ =~= before.push(post@));
            if exists|i: int| 0 <= i < before.len() && #[trigger] before[i].id == id {
                let i = choose|i: int| 0 <= i < before.len() && #[trigger] before[i].id == id;
                assert(before[i].id < id);
            }
        }
        Ok(post)
    }

    /// The posts of page `page` (counting from 1), ordered by id. A page below 1
    /// is an offset that the store cannot serve.
    pub fn get_all_post(&self, page: i64) -> (r: Result<Vec<Post>, Failure>)
        requires
            self.wf(),
        ensures
            page < 1 ==> r == Err::<Vec<Post>, Failure>(Failure::StoreUnavailable),
            page >= 1 ==> (r matches Ok(v) && v@.map_values(|p: Post| p@) == self@.subrange(
                vstd::math::min((page - 1) * PAGE_SIZE, self@.len() as int),
                vstd::math::min(page * PAGE_SIZE, self@.len() as int),
            )),
    {
        if page < 1 {
            return Err(Failure::StoreUnavailable);
        }
        let n: usize = self.posts.len();
        let p: u64 = (page - 1) as u64;
        let start: usize = if p > (n / 10) as u64 {
            assert(p * 10 > n) by (nonlinear_arith)
                requires
                    p > n / 10,
            ;
            n
        } else {
            assert(p * 10 <= n) by (nonlinear_arith)
                requires
                    p <= n / 10,
            ;
            (p as usize) * 10
        };
        let end: usize = if n - start < 10 {
            n
        } else {
            start + 10
        };
        assert(start as int == vstd::math::min((page - 1) * PAGE_SIZE, n as int));
        assert(end as int == vstd::math::min(page * PAGE_SIZE, n as int));
        let mut out: Vec<Post> = Vec::new();
        let mut i: usize = start;
        while i < end
            invariant
                start <= i <= end <= n,
                n == self.posts@.len(),
                self@ == self.posts@.map_values(|p: Post| p@),
                out@.map_values(|p: Post| p@) == self@.subrange(start as int, i as int),
            decreases end - i,
        {
            assert(self@[i as int] == self.posts@[i as int]@);
            let c = copy_post(&self.posts[i]);
            let ghost prev = out@;
            out.push(c);
            assert(out@.map_values(|p: Post| p@) =~= prev.map_values(|p: Post| p@).push(c@));
            assert(out@.map_values(|p: Post| p@) =~= self@.subrange(start as int, i + 1));
            i = i + 1;
        }
        Ok(out)
    }

    /// The post with this id.
    pub fn get_one_post(&self, id: i32) -> (r: Result<Post, Failure>)
        requires
            self.wf(),
        ensures
            match index_of(self@, id as int) {
                Some(i) => r matches Ok(p) && p@ == self@[i],
                None => r == Err::<Post, Failure>(Failure::NotFound),
            },
    {
        match self.find(id) {
            Some(i) => {
                assert(self@[i as int] == self.posts@[i as int]@);
                Ok(copy_post(&self.posts[i]))
            },
            None => Err(Failure::NotFound),
        }
    }

    /// Removes the caller's post with this id. A post that does not exist and
    /// one that another account wrote are both `NotFound`.
    pub fn delete_post_by_id(&mut self, id: i32, caller: &IdentityContext) -> (r: Result<(), Failure>)
        requires
            old(self).wf(),
        ensures
            final(self).wf(),
            match owned_index(old(self)@, id as int, caller.subject@) {
                Some(i) => r is Ok && final(self)@ == old(self)@.remove(i),
                None => r == Err::<(), Failure>(Failure::NotFound) && final(self)@ == old(self)@,
            },
    {
        match self.find_owned(id, caller.subject.as_str()) {
            None => Err(Failure::NotFound),
            Some(i) => {
                let ghost before = self@;
                self.posts.remove(i);
                proof {
                    assert(self@ =~= before.remove(i as int));
                    assert forall|a: int, b: int| 0 <= a < b < self@.len() implies self@[a].id < self@[b].id by {
                        if a >= i {
                            assert(self@[a] == before[a + 1]);
                        } else {
                            assert(self@[a] == before[a]);
                        }
                        if b >= i {
                            assert(self@[b] == before[b + 1]);
                        } else {
                            assert(self@[b] == before[b]);
                        }
                    }
                    assert forall|a: int| 0 <= a < self@.len() implies 1 <= #[trigger] self@[a].id < self.next_id by {
                        if a >= i {
                            assert(self@[a] == before[a + 1]);
                        } else {
                            assert(self@[a] == before[a]);
                        }
                    }
                }
                Ok(())
            },
        }
    }

    /// Changes the caller's post with this id, and only that post.
    pub fn update_post_by_id(&mut self, id: i32, caller: &IdentityContext, body: UpdatePost) -> (r: Result<
        Post,
        Failure,
    >)
        requires
            old(self).wf(),
        ensures
            final(self).wf(),
            match owned_index(old(self)@, id as int, caller.subject@) {
                Some(i) => r matches Ok(p) && p@ == updated(old(self)@[i], owner_view(body.title), owner_view(body.content))
                    && final(self)@ == old(self)@.update(i, p@),
                None => r == Err::<Post, Failure>(Failure::NotFound) && final(self)@ == old(self)@,
            },
    {
        match self.find_owned(id, caller.subject.as_str()) {
            None => Err(Failure::NotFound),
            Some(i) => {
                let ghost before = self@;
                assert(before[i as int] == self.posts@[i as int]@);
                let old_post = copy_post(&self.posts[i]);
                let title = match body.title {
                    Some(t) => t,
                    None => old_post.title,
                };
                let content = match body.content {
                    Some(c) => c,
                    None => old_post.content,
                };
                let post = Post { id: old_post.id, title, content, user_id: old_post.user_id };
                self.posts.set(i, copy_post(&post));
                proof {
                    assert(self@ =~= before.update(i as int, post@));
                    assert forall|a: int| 0 <= a < self@.len() implies 1 <= #[trigger] self@[a].id < self.next_id by {
                        if a != i {
                            assert(self@[a] == before[a]);
                        }
                    }
                    assert forall|a: int, b: int| 0 <= a < b < self@.len() implies self@[a].id < self@[b].id by {
                        assert(self@[a].id == before[a].id);
                        assert(self@[b].id == before[b].id);
                    }
                }
                Ok(post)
            },
        }
    }

    /// Creates a post for the caller that the `Authorization` header names;
    /// a request that authentication refuses never reaches the store.
    pub fn create_authorized(
        &mut self,
        codec: &TokenCodec,
        authorization: Option<&str>,
        now: u64,
        body: NewPost,
    ) -> (r: Result<Post, Failure>)
        requires
            old(self).wf(),
        ensures
            final(self).wf(),
            admitted_identity(header_view(authorization), codec.key(), now as nat) is None ==> r
                == Err::<Post, Failure>(Failure::Unauthenticated) && final(self)@ == old(self)@,
            admitted_identity(header_view(authorization), codec.key(), now as nat) matches Some(v)
                ==> (!valid_new_post(body.title@, body.content@) ==> r == Err::<Post, Failure>(
                Failure::ValidationFailed)) && (r matches Ok(p) ==> p.user_id matches Some(u) && u@
                == v.sub && final(self)@ == old(self)@.push(p@)),
    {
        match authenticate(codec, authorization, now) {
            Err(f) => Err(f),
            Ok(ctx) => self.create(body, &ctx),
        }
    }

    /// Deletes a post on behalf of the caller that the `Authorization` header
    /// names; a request that authentication refuses never reaches the store.
    pub fn delete_authorized(&mut self, codec: &TokenCodec, authorization: Option<&str>, now: u64, id: i32) -> (r:
        Result<(), Failure>)
        requires
            old(self).wf(),
        ensures
            final(self).wf(),
            match admitted_identity(header_view(authorization), codec.key(), now as nat) {
                None => r == Err::<(), Failure>(Failure::Unauthenticated) && final(self)@ == old(self)@,
                Some(v) => match owned_index(old(self)@, id as int, v.sub) {
                    Some(i) => r is Ok && final(self)@ == old(self)@.remove(i),
                    None => r == Err::<(), Failure>(Failure::NotFound) && final(self)@ == old(self)@,
                },
            },
    {
        match authenticate(codec, authorization, now) {
            Err(f) => Err(f),
            Ok(ctx) => self.delete_post_by_id(id, &ctx),
        }
    }

    /// Updates a post on behalf of the caller that the `Authorization` header
    /// names; a request that authentication refuses never reaches the store.
    pub fn update_authorized(
        &mut self,
        codec: &TokenCodec,
        authorization: Option<&str>,
        now: u64,
        id: i32,
        body: UpdatePost,
    ) -> (r: Result<Post, Failure>)
        requires
            old(self).wf(),
        ensures
            final(self).wf(),
            match admitted_identity(header_view(authorization), codec.key(), now as nat) {
                None => r == Err::<Post, Failure>(Failure::Unauthenticated) && final(self)@ == old(self)@,
                Some(v) => match owned_index(old(self)@, id as int, v.sub) {
                    Some(i) => r matches Ok(p) && p@ == updated(old(self)@[i], owner_view(body.title), owner_view(body.content))
                        && final(self)@ == old(self)@.update(i, p@),
                    None => r == Err::<Post, Failure>(Failure::NotFound) && final(self)@ == old(self)@,
                },
            },
    {
        match authenticate(codec, authorization, now) {
            Err(f) => Err(f),
            Ok(ctx) => self.update_post_by_id(id, &ctx, body),
        }
    }
}

} // verus!
