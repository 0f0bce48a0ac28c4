//! Request authentication: reads the bearer token of a request, verifies it
//! and hands the caller's identity to the protected operation, or refuses.
use vstd::prelude::*;
use vstd::string::*;
use crate::claim::{ClaimView, TokenClaims};
use crate::codec::{TokenCodec, opened_payload, token_outcome};
use crate::response::{Failure, FailureResponse, failure_body, failure_status};

verus! {

/// The verified identity of the caller of one request.
#[derive(Clone, Debug)]
pub struct IdentityContext {
    pub subject: String,
    pub claim: TokenClaims,
}

pub open spec fn bearer_prefix() -> Seq<char> {
    "Bearer "@
}

/// The token that an `Authorization` header value carries.
pub open spec fn bearer_of(h: Seq<char>) -> Option<Seq<char>> {
    if h.len() > 7 && h.subrange(0, 7) == bearer_prefix() {
        Some(h.subrange(7, h.len() as int))
    } else {
        None
    }
}

/// The identity admitted for a request with this header at `now`, if any.
pub open spec fn admitted_identity(header: Option<Seq<char>>, key: Seq<u8>, now: nat) -> Option<ClaimView> {
    match header {
        None => None,
        Some(h) => match bearer_of(h) {
            None => None,
            Some(t) => match token_outcome(t, key, now) {
                Ok(v) => Some(v),
                Err(_) => None,
            },
        },
    }
}

pub open spec fn header_view(authorization: Option<&str>) -> Option<Seq<char>> {
    match authorization {
        Some(h) => Some(h@),
        None => None,
    }
}

/// The token of an `Authorization: Bearer <token>` header value.
pub fn bearer_token(header: &str) -> (r: Option<String>)
    ensures
        match bearer_of(header@) {
            Some(t) => r matches Some(s) && s@ == t,
            None => r is None,
        },
{
    proof {
        reveal_strlit("Bearer ");
    }
    let n: usize = header.unicode_len();
    if n <= 7 {
        return None;
    }
    let prefix: &str = "Bearer ";
    let mut k: usize = 0;
    while k < 7
        invariant
            n == header@.len(),
            n > 7,
            prefix@ == bearer_prefix(),
            prefix@.len() == 7,
            k <= 7,
            forall|i: int| 0 <= i < k ==> header@[i] == prefix@[i],
        decreases 7 - k,
    {
        if header.get_char(k) != prefix.get_char(k) {
            assert(header@.subrange(0, 7)[k as int] == header@[k as int]);
            return None;
        }
        k = k + 1;
    }
    assert(header@.subrange(0, 7) =~= bearer_prefix());
    Some(header.substring_char(7, n).to_string())
}

/// Decides whether a request with this `Authorization` header goes on, and
/// as whom. Every refusal is the same `Unauthenticated`.
pub fn authenticate(codec: &TokenCodec, authorization: Option<&str>, now: u64) -> (r: Result<
    IdentityContext,
    Failure,
>)
    ensures
        match admitted_identity(header_view(authorization), codec.key(), now as nat) {
            Some(v) => r matches Ok(ctx) && ctx.claim@ == v && ctx.subject@ == v.sub,
            None => r == Err::<IdentityContext, Failure>(Failure::Unauthenticated),
        },
{
    let h = match authorization {
        Some(h) => h,
        None => {
            return Err(Failure::Unauthenticated);
        },
    };
    let token = match bearer_token(h) {
        Some(t) => t,
        None => {
            return Err(Failure::Unauthenticated);
        },
    };
    match codec.verify(token.as_str(), now) {
        Ok(claim) => Ok(IdentityContext { subject: claim.user.id.clone(), claim }),
        Err(_) => Err(Failure::Unauthenticated),
    }
}

/// Runs `next` as a protected operation: only with the caller's verified
/// identity, and never for a request that authentication refuses.
pub fn guard<R, F: FnOnce(IdentityContext) -> R>(
    codec: &TokenCodec,
    authorization: Option<&str>,
    now: u64,
    next: F,
) -> (r: Result<R, FailureResponse>)
    requires
        forall|ctx: IdentityContext| next.requires((ctx,)),
    ensures
        admitted_identity(header_view(authorization), codec.key(), now as nat) is None ==> (r matches Err(
            resp,
        ) && resp.status == failure_status(Failure::Unauthenticated) && resp.body@ == failure_body(
            Failure::Unauthenticated,
        )),
        admitted_identity(header_view(authorization), codec.key(), now as nat) matches Some(v) ==> (r matches Ok(out)
            && exists|ctx: IdentityContext|
            #[trigger] next.ensures((ctx,), out) && ctx.claim@ == v && ctx.subject@ == v.sub),
{
    match authenticate(codec, authorization, now) {
        Ok(ctx) => {
            let ghost c = ctx;
            assert(admitted_identity(header_view(authorization), codec.key(), now as nat) == Some(c.claim@));
            let out = next(ctx);
            assert(next.ensures((c,), out));
            let r: Result<R, FailureResponse> = Ok(out);
            assert(r matches Ok(o) && next.ensures((c,), o));
            assert(r matches Ok(o) && exists|x: IdentityContext|
                #[trigger] next.ensures((x,), o) && x.claim@ == c.claim@ && x.subject@ == c.subject@);
            r
        },
        Err(f) => Err(f.respond()),
    }
}

/// A request without a token is refused; a request that bears a token whose
/// signature checks out and whose claim has not expired goes on as the
/// claim's subject.
pub proof fn lemma_guard_decides(key: Seq<u8>, now: nat, token: Seq<char>, c: TokenClaims)
    ensures
        admitted_identity(None, key, now) is None,
        token.len() > 0 && opened_payload(token, key) == Ok::<Seq<char>, crate::codec::TokenError>(c.text()) && now
            < c.exp ==> admitted_identity(Some(bearer_prefix() + token), key, now) == Some(c@),
{
    if token.len() > 0 && opened_payload(token, key) == Ok::<Seq<char>, crate::codec::TokenError>(c.text()) && now
        < c.exp {
        reveal_strlit("Bearer ");
        let h = bearer_prefix() + token;
        assert(h.subrange(0, 7) =~= bearer_prefix());
        assert(h.subrange(7, h.len() as int) =~= token);
        crate::codec::lemma_payload_round_trip(c, now);
    }
}

} // verus!
