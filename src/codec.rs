//! Signing a claim into a token and reading a token back into a claim.
use vstd::prelude::*;
use crate::claim::{
    ClaimView, Payload, TokenClaims, VALIDITY_WINDOW, claim_text, lemma_claim_text_injective,
    parse_claim,
};

verus! {

/// Why a token was refused.
#[derive(Clone, Copy, Debug, PartialEq, Eq)]
pub enum TokenError {
    BadSignature,
    Malformed,
    Expired,
}

/// The token that jsonwebtoken signs for this payload text under this secret.
pub uninterp spec fn signed_token(payload: Seq<char>, secret: Seq<u8>) -> Seq<char>;

/// What jsonwebtoken makes of a token under this secret: the payload text,
/// when the signature checks out, or why it refused the token.
pub uninterp spec fn opened_payload(token: Seq<char>, secret: Seq<u8>) -> Result<Seq<char>, TokenError>;

pub open spec fn segment_char(c: char) -> bool {
    ('A' <= c && c <= 'Z') || ('a' <= c && c <= 'z') || ('0' <= c && c <= '9') || c == '-' || c
        == '_'
}

/// Three non-empty base64url segments joined by dots.
pub open spec fn is_transport_form(s: Seq<char>) -> bool {
    exists|i: int, j: int|
        #![trigger s[i], s[j]]
        0 < i && i + 1 < j && j + 1 < s.len() && s[i] == '.' && s[j] == '.' && forall|k: int|
            0 <= k < s.len() && k != i && k != j ==> #[trigger] segment_char(s[k])
}

/// Relies on serde_json's `RawValue::from_string`, which accepts valid JSON
/// text and keeps it as it is, and on `jsonwebtoken::encode` with the default
/// HS256 header, which fails only for a key of another family: the token is
/// a function of header, payload and key, and is the base64url header,
/// payload and HMAC signature joined by dots. `jsonwebtoken::decode` under the
/// same key re-signs header and payload, finds the same signature, and hands
/// the JSON object back unchanged.
#[verifier::external_body]
fn encode_token(payload: String, secret: &[u8]) -> (r: Option<String>)
    ensures
        match r {
            Some(t) => t@ == signed_token(payload@, secret@) && is_transport_form(t@) && (holds_claim(
                payload@,
            ) ==> opened_payload(t@, secret@) == Ok::<Seq<char>, TokenError>(payload@)),
            None => !holds_claim(payload@),
        },
{
    let raw = serde_json::value::RawValue::from_string(payload).ok()?;
    let key = jsonwebtoken::EncodingKey::from_secret(secret);
    jsonwebtoken::encode(&jsonwebtoken::Header::default(), &raw, &key).ok()
}

/// Relies on `jsonwebtoken::decode` for HS256 with the expiry check switched
/// off (expiry is decided by the caller): it checks the signature with the
/// key and hands back the payload text, and reads no clock. Its
/// `InvalidSignature` error is reported as `BadSignature`, every other error
/// as `Malformed`.
#[verifier::external_body]
fn open_token(token: &str, secret: &[u8]) -> (r: Result<String, TokenError>)
    ensures
        match r {
            Ok(p) => opened_payload(token@, secret@) == Ok::<Seq<char>, TokenError>(p@),
            Err(e) => opened_payload(token@, secret@) == Err::<Seq<char>, TokenError>(e) && e
                != TokenError::Expired,
        },
{
    let mut validation = jsonwebtoken::Validation::new(jsonwebtoken::Algorithm::HS256);
    validation.validate_exp = false;
    validation.required_spec_claims.clear();
    let key = jsonwebtoken::DecodingKey::from_secret(secret);
    match jsonwebtoken::decode::<Box<serde_json::value::RawValue>>(token, &key, &validation) {
        Ok(data) => Ok(data.claims.get().to_string()),
        Err(e) => match e.kind() {
            jsonwebtoken::errors::ErrorKind::InvalidSignature => Err(TokenError::BadSignature),
            _ => Err(TokenError::Malformed),
        },
    }
}

/// Whether some claim has `p` as its payload text.
pub open spec fn holds_claim(p: Seq<char>) -> bool {
    exists|v: ClaimView| #[trigger] v.fits(p)
}

/// The claim whose payload text `p` is.
pub open spec fn claim_of(p: Seq<char>) -> ClaimView {
    choose|v: ClaimView| #[trigger] v.fits(p)
}

/// What reading payload text `p` at instant `now` yields: its claim while
/// `now` is before the claim's expiry.
pub open spec fn payload_outcome(p: Seq<char>, now: nat) -> Result<ClaimView, TokenError> {
    if holds_claim(p) {
        if now < claim_of(p).exp {
            Ok(claim_of(p))
        } else {
            Err(TokenError::Expired)
        }
    } else {
        Err(TokenError::Malformed)
    }
}

pub open spec fn outcome_view(r: Result<TokenClaims, TokenError>) -> Result<ClaimView, TokenError> {
    match r {
        Ok(c) => Ok(c@),
        Err(e) => Err(e),
    }
}

/// A claim is the claim of its own payload text.
pub proof fn lemma_claim_of_text(c: ClaimView)
    requires
        c.fits(crate::claim::claim_text(c.sub, c.email, c.iat, c.exp)),
    ensures
        holds_claim(crate::claim::claim_text(c.sub, c.email, c.iat, c.exp)),
        claim_of(crate::claim::claim_text(c.sub, c.email, c.iat, c.exp)) == c,
{
    let t = crate::claim::claim_text(c.sub, c.email, c.iat, c.exp);
    assert(c.fits(t));
    let w = claim_of(t);
    lemma_claim_text_injective(t, c.sub, c.email, c.iat, c.exp, w.sub, w.email, w.iat, w.exp);
}

/// Decides on what the decoder handed back: its fault, or the claim of the
/// payload while it has not expired at `now`.
pub fn accept_payload(opened: Result<String, TokenError>, now: u64) -> (r: Result<
    TokenClaims,
    TokenError,
>)
    ensures
        match opened {
            Ok(p) => outcome_view(r) == payload_outcome(p@, now as nat),
            Err(e) => r == Err::<TokenClaims, TokenError>(e),
        },
{
    match opened {
        Err(e) => Err(e),
        Ok(p) => {
            match parse_claim(p.as_str()) {
                None => {
                    proof {
                        if holds_claim(p@) {
                            let v = claim_of(p@);
                            assert(v.fits(p@));
                        }
                    }
                    Err(TokenError::Malformed)
                },
                Some(c) => {
                    proof {
                        assert(c@.fits(p@));
                        lemma_claim_of_text(c@);
                    }
                    if now < c.exp {
                        Ok(c)
                    } else {
                        Err(TokenError::Expired)
                    }
                },
            }
        },
    }
}

/// What verifying `token` under `key` at instant `now` yields.
pub open spec fn token_outcome(token: Seq<char>, key: Seq<u8>, now: nat) -> Result<ClaimView, TokenError> {
    match opened_payload(token, key) {
        Ok(p) => payload_outcome(p, now),
        Err(e) => Err(e),
    }
}

/// A claim read back from its own payload text before it expires comes back
/// unchanged: the decoding half of signing and verifying a claim.
pub proof fn lemma_payload_round_trip(c: TokenClaims, now: nat)
    requires
        now < c.exp,
    ensures
        payload_outcome(c.text(), now) == Ok::<ClaimView, TokenError>(c@),
{
    assert(c@.fits(c.text()));
    lemma_claim_of_text(c@);
}

/// A token minted for a claim (which opens to the claim's payload text, as
/// `mint` ensures) verifies to that same claim at any instant before expiry.
pub proof fn lemma_token_round_trip(c: TokenClaims, token: Seq<char>, key: Seq<u8>, now: nat)
    requires
        opened_payload(token, key) == Ok::<Seq<char>, TokenError>(c.text()),
        now < c.exp,
    ensures
        token_outcome(token, key, now) == Ok::<ClaimView, TokenError>(c@),
{
    lemma_payload_round_trip(c, now);
}

/// A token minted for a claim issued at `iat` verifies one second before the
/// validity window closes and is refused as expired one second after it.
pub proof fn lemma_expiry_window(c: TokenClaims, token: Seq<char>, key: Seq<u8>, iat: nat)
    requires
        c.issued_at(iat),
        opened_payload(token, key) == Ok::<Seq<char>, TokenError>(c.text()),
    ensures
        token_outcome(token, key, (iat + VALIDITY_WINDOW - 1) as nat) == Ok::<ClaimView, TokenError>(
            c@,
        ),
        token_outcome(token, key, (iat + VALIDITY_WINDOW + 1) as nat) == Err::<ClaimView, TokenError>(
            TokenError::Expired,
        ),
{
    assert(c@.fits(c.text()));
    lemma_claim_of_text(c@);
}

/// The process-wide signing configuration: one shared secret.
pub struct TokenCodec {
    secret: Vec<u8>,
}

impl TokenCodec {
    pub closed spec fn key(&self) -> Seq<u8> {
        self.secret@
    }

    pub fn new(secret: Vec<u8>) -> (r: TokenCodec)
        ensures
            r.key() == secret@,
    {
        TokenCodec { secret }
    }

    /// Signs the claim's payload text. Every claim gets a token.
    pub fn mint(&self, claim: &TokenClaims) -> (r: Result<String, TokenError>)
        ensures
            r matches Ok(t) && t@ == signed_token(claim.text(), self.key()) && is_transport_form(t@)
                && opened_payload(t@, self.key()) == Ok::<Seq<char>, TokenError>(claim.text()),
    {
        proof {
            assert(claim@.fits(claim.text()));
        }
        match encode_token(claim.render(), self.secret.as_slice()) {
            Some(t) => Ok(t),
            None => Err(TokenError::Malformed),
        }
    }

    /// Checks the token's signature, reads its claim and refuses it from its
    /// expiry instant on.
    pub fn verify(&self, token: &str, now: u64) -> (r: Result<TokenClaims, TokenError>)
        ensures
            outcome_view(r) == token_outcome(token@, self.key(), now as nat),
    {
        accept_payload(open_token(token, self.secret.as_slice()), now)
    }
}

/// Relies on `std::time::SystemTime::now` and `duration_since(UNIX_EPOCH)`:
/// the clock's reading in whole seconds since the epoch, or `None` for a
/// clock set before it. It depends on the clock, so nothing is promised of it.
#[verifier::external_body]
fn clock_seconds() -> (r: Option<u64>) {
    std::time::SystemTime::now().duration_since(std::time::UNIX_EPOCH).ok().map(|d| d.as_secs())
}

/// The current instant in seconds since the epoch; a clock set before the
/// epoch reads as the epoch.
pub fn now_seconds() -> (r: u64) {
    match clock_seconds() {
        Some(t) => t,
        None => 0,
    }
}

impl TokenClaims {
    /// Issues claims for `data` at the current instant and signs them. Only a
    /// clock so far ahead that the validity window would pass the largest
    /// instant is refused.
    pub fn generate_token(codec: &TokenCodec, data: Payload) -> (r: Result<String, TokenError>)
        ensures
            r is Ok || r == Err::<String, TokenError>(TokenError::Expired),
            r matches Ok(t) ==> is_transport_form(t@) && exists|now: nat|
                #![trigger claim_text(data.id@, data.email@, now, (now + VALIDITY_WINDOW) as nat)]
                t@ == signed_token(
                    claim_text(data.id@, data.email@, now, (now + VALIDITY_WINDOW) as nat),
                    codec.key(),
                ) && opened_payload(t@, codec.key()) == Ok::<Seq<char>, TokenError>(
                    claim_text(data.id@, data.email@, now, (now + VALIDITY_WINDOW) as nat),
                ),
    {
        let now = now_seconds();
        if now > u64::MAX - VALIDITY_WINDOW {
            return Err(TokenError::Expired);
        }
        let ghost d = data;
        let claims = TokenClaims::issue(data, now);
        let r = codec.mint(&claims);
        proof {
            if r is Ok {
                assert(claims.text() == claim_text(d.id@, d.email@, now as nat, (now + VALIDITY_WINDOW) as nat));
            }
        }
        r
    }
}

/// The claims that a verified token carried.
#[derive(Clone, Debug, PartialEq, Eq)]
pub struct JwtUserToken {
    pub user: Payload,
    pub iat: u64,
    pub exp: u64,
}

impl View for JwtUserToken {
    type V = ClaimView;

    open spec fn view(&self) -> ClaimView {
        ClaimView { sub: self.user.id@, email: self.user.email@, iat: self.iat as nat, exp: self.exp as nat }
    }
}

pub open spec fn decoded_view(r: Result<JwtUserToken, TokenError>) -> Result<ClaimView, TokenError> {
    match r {
        Ok(c) => Ok(c@),
        Err(e) => Err(e),
    }
}

/// Verifies `token` at the current instant.
pub fn decode_token(codec: &TokenCodec, token: &str) -> (r: Result<JwtUserToken, TokenError>)
    ensures
        exists|now: nat| decoded_view(r) == #[trigger] token_outcome(token@, codec.key(), now),
{
    let now = now_seconds();
    let v = codec.verify(token, now);
    let r = match v {
        Ok(c) => Ok(JwtUserToken { user: c.user, iat: c.iat, exp: c.exp }),
        Err(e) => Err(e),
    };
    proof {
        assert(decoded_view(r) == token_outcome(token@, codec.key(), now as nat));
    }
    r
}

} // verus!
