//! Accounts and sessions: registering a credential and turning a login with
//! the right password into a signed token.
use vstd::prelude::*;
use vstd::string::*;
use crate::claim::{Payload, TokenClaims, VALIDITY_WINDOW, claim_text};
use crate::codec::{TokenCodec, is_transport_form, signed_token};
use crate::response::Failure;

verus! {

/// Whether argon2 accepts this password for this PHC hash string.
pub uninterp spec fn argon2_accepts(password: Seq<char>, hash: Seq<char>) -> bool;

/// Whether validator's `ValidateEmail::validate_email` accepts this email.
pub uninterp spec fn validator_email(e: Seq<char>) -> bool;

/// Relies on `argon2::Argon2::hash_password` with a salt that
/// `SaltString::generate` draws from the operating system: the PHC string of
/// a salted, memory-hard hash. With default parameters it fails only for a
/// password longer than `MAX_PWD_LEN` bytes, and
/// `PasswordVerifier::verify_password` re-hashes with the salt and
/// parameters that the string holds, so it accepts the password.
#[verifier::external_body]
fn hash_password(password: &str) -> (r: Option<String>)
    ensures
        match r {
            Some(h) => argon2_accepts(password@, h@),
            None => password.spec_bytes().len() > MAX_PASSWORD_BYTES,
        },
{
    let salt = argon2::password_hash::SaltString::generate(&mut argon2::password_hash::rand_core::OsRng);
    let hasher = <argon2::Argon2 as core::default::Default>::default();
    argon2::PasswordHasher::hash_password(&hasher, password.as_bytes(), &salt).ok().map(|h| h.to_string())
}

/// Relies on `argon2::PasswordHash::new` and `PasswordVerifier::verify_password`:
/// whether the password matches the PHC string, a function of the two alone.
#[verifier::external_body]
fn password_matches(password: &str, hash: &str) -> (r: bool)
    ensures
        r == argon2_accepts(password@, hash@),
{
    match argon2::PasswordHash::new(hash) {
        Ok(parsed) => {
            let hasher = <argon2::Argon2 as core::default::Default>::default();
            argon2::PasswordVerifier::verify_password(&hasher, password.as_bytes(), &parsed).is_ok()
        },
        Err(_) => false,
    }
}

/// Relies on validator's `ValidateEmail::validate_email` for `&str`.
#[verifier::external_body]
fn email_passes_validator(e: &str) -> (r: bool)
    ensures
        r == validator_email(e@),
{
    validator::ValidateEmail::validate_email(&e)
}

/// Relies on `uuid::Uuid::new_v4` and its hyphenated text form, which is 36
/// characters long. The id is random.
#[verifier::external_body]
fn fresh_account_id() -> (r: String)
    ensures
        r@.len() == 36,
{
    uuid::Uuid::new_v4().to_string()
}

/// A stored account: id, email and password hash.
#[derive(Clone, Debug, PartialEq, Eq)]
pub struct CredentialRecord {
    pub id: String,
    pub email: String,
    pub password_hash: String,
}

pub struct CredentialView {
    pub id: Seq<char>,
    pub email: Seq<char>,
    pub hash: Seq<char>,
}

impl View for CredentialRecord {
    type V = CredentialView;

    open spec fn view(&self) -> CredentialView {
        CredentialView { id: self.id@, email: self.email@, hash: self.password_hash@ }
    }
}

/// The record with this email, if there is one.
pub open spec fn find_record(recs: Seq<CredentialView>, email: Seq<char>) -> Option<CredentialView> {
    if exists|i: int| 0 <= i < recs.len() && #[trigger] recs[i].email == email {
        Some(recs[choose|i: int| 0 <= i < recs.len() && #[trigger] recs[i].email == email])
    } else {
        None
    }
}

/// No two records share an email.
pub open spec fn emails_unique(recs: Seq<CredentialView>) -> bool {
    forall|i: int, j: int|
        0 <= i < recs.len() && 0 <= j < recs.len() && #[trigger] recs[i].email == #[trigger] recs[j].email
            ==> i == j
}

/// An email that validator accepts.
pub open spec fn valid_email(e: Seq<char>) -> bool {
    validator_email(e)
}

/// The fewest characters a password may have.
pub const MIN_PASSWORD_LEN: usize = 8;

/// The longest password, in bytes, that argon2 hashes.
pub const MAX_PASSWORD_BYTES: usize = 0xFFFFFFFF;

pub open spec fn valid_password(p: Seq<char>) -> bool {
    p.len() >= MIN_PASSWORD_LEN
}

/// What a login with this email and password comes to, before a token is
/// signed: the account, or one failure for an unknown email and a wrong
/// password alike.
pub open spec fn login_verdict(recs: Seq<CredentialView>, email: Seq<char>, password: Seq<char>) -> Result<
    CredentialView,
    Failure,
> {
    match find_record(recs, email) {
        None => Err(Failure::InvalidCredentials),
        Some(rec) => if argon2_accepts(password, rec.hash) {
            Ok(rec)
        } else {
            Err(Failure::InvalidCredentials)
        },
    }
}

pub fn text_eq(a: &str, b: &str) -> (r: bool)
    ensures
        r == (a@ == b@),
{
    let n: usize = a.unicode_len();
    if n != b.unicode_len() {
        return false;
    }
    let mut i: usize = 0;
    while i < n
        invariant
            n == a@.len(),
            n == b@.len(),
            i <= n,
            forall|k: int| 0 <= k < i ==> a@[k] == b@[k],
        decreases n - i,
    {
        if a.get_char(i) != b.get_char(i) {
            return false;
        }
        i = i + 1;
    }
    assert(a@ =~= b@);
    true
}

pub fn email_is_valid(e: &str) -> (r: bool)
    ensures
        r == valid_email(e@),
{
    email_passes_validator(e)
}

/// The accounts, with unique emails.
pub struct CredentialStore {
    records: Vec<CredentialRecord>,
}

impl View for CredentialStore {
    type V = Seq<CredentialView>;

    closed spec fn view(&self) -> Seq<CredentialView> {
        self.records@.map_values(|r: CredentialRecord| r@)
    }
}

impl CredentialStore {
    pub closed spec fn wf(&self) -> bool {
        emails_unique(self@)
    }

    pub fn new() -> (r: CredentialStore)
        ensures
            r.wf(),
            r@ == Seq::<CredentialView>::empty(),
    {
        let r = CredentialStore { records: Vec::new() };
        assert(r@ =~= Seq::<CredentialView>::empty());
        r
    }

    pub fn len(&self) -> (r: usize)
        ensures
            r == self@.len(),
    {
        self.records.len()
    }

    /// The account with this email.
    pub fn find_by_email(&self, email: &str) -> (r: Option<&CredentialRecord>)
        requires
            self.wf(),
        ensures
            match find_record(self@, email@) {
                Some(v) => r matches Some(rec) && rec@ == v,
                None => r is None,
            },
    {
        let n: usize = self.records.len();
        let mut i: usize = 0;
        while i < n
            invariant
                n == self.records@.len(),
                n == self@.len(),
                emails_unique(self@),
                i <= n,
                self@ == self.records@.map_values(|r: CredentialRecord| r@),
                forall|k: int| 0 <= k < i ==> (#[trigger] self@[k]).email != email@,
            decreases n - i,
        {
            assert(self@[i as int] == self.records@[i as int]@);
            if text_eq(self.records[i].email.as_str(), email) {
                proof {
                    assert(self@[i as int] == self.records@[i as int]@);
                    assert(self@[i as int].email == email@);
                    let j = choose|j: int| 0 <= j < self@.len() && #[trigger] self@[j].email == email@;
                    assert(j == i);
                }
                return Some(&self.records[i]);
            }
            i = i + 1;
        }
        None
    }

    /// Adds an account unless its email is taken.
    pub fn insert(&mut self, record: CredentialRecord) -> (r: Result<(), Failure>)
        requires
            old(self).wf(),
        ensures
            final(self).wf(),
            find_record(old(self)@, record.email@) is Some ==> r == Err::<(), Failure>(Failure::Conflict)
                && final(self)@ == old(self)@,
            find_record(old(self)@, record.email@) is None ==> r is Ok && final(self)@ == old(self)@.push(
                record@,
            ),
    {
        if self.find_by_email(record.email.as_str()).is_some() {
            return Err(Failure::Conflict);
        }
        let ghost before = self@;
        let ghost rv = record@;
        self.records.push(record);
        proof {
            assert(self@ =~= before.push(rv));
            assert forall|i: int, j: int|
                0 <= i < self@.len() && 0 <= j < self@.len() && #[trigger] self@[i].email
                    == #[trigger] self@[j].email implies i == j by {
                if i < before.len() && j == before.len() {
                    assert(before[i].email == rv.email);
                } else if j < before.len() && i == before.len() {
                    assert(before[j].email == rv.email);
                }
            }
        }
        Ok(())
    }

    /// Registers an account: checks the input, hashes the password with a
    /// fresh salt and stores the record under a fresh id. Returns the new
    /// identity, without the password.
    pub fn register(&mut self, email: &str, password: &str) -> (r: Result<Payload, Failure>)
        requires
            old(self).wf(),
        ensures
            final(self).wf(),
            !(valid_email(email@) && valid_password(password@)) ==> r == Err::<Payload, Failure>(
                Failure::ValidationFailed,
            ),
            valid_email(email@) && valid_password(password@) && find_record(old(self)@, email@) is Some
                ==> r == Err::<Payload, Failure>(Failure::Conflict),
            valid_email(email@) && valid_password(password@) && find_record(old(self)@, email@) is None
                && password.spec_bytes().len() <= MAX_PASSWORD_BYTES ==> r is Ok,
            r matches Ok(p) ==> p.email@ == email@ && find_record(old(self)@, email@)
                is None && final(self)@.len() == old(self)@.len() + 1 && final(self)@.last().id == p.id@
                && final(self)@.last().email == email@ && argon2_accepts(password@, final(self)@.last().hash)
                && final(self)@.drop_last() == old(self)@,
            r matches Err(f) ==> final(self)@ == old(self)@ && (f == Failure::ValidationFailed || f
                == Failure::Conflict || (f == Failure::StoreUnavailable && password.spec_bytes().len()
                > MAX_PASSWORD_BYTES)),
    {
        if !email_is_valid(email) || password.unicode_len() < MIN_PASSWORD_LEN {
            return Err(Failure::ValidationFailed);
        }
        if self.find_by_email(email).is_some() {
            return Err(Failure::Conflict);
        }
        let hash = match hash_password(password) {
            Some(h) => h,
            None => {
                return Err(Failure::StoreUnavailable);
            },
        };
        let id = fresh_account_id();
        let record = CredentialRecord { id: id.clone(), email: email.to_string(), password_hash: hash };
        let ghost before = self@;
        match self.insert(record) {
            Ok(()) => {
                assert(self@.drop_last() =~= before);
                Ok(Payload { id, email: email.to_string() })
            },
            Err(f) => Err(f),
        }
    }

    /// Logs in: the right password for a known email gives a token for that
    /// account, issued at `now`.
    pub fn login(&self, codec: &TokenCodec, email: &str, password: &str, now: u64) -> (r: Result<
        String,
        Failure,
    >)
        requires
            self.wf(),
            now <= u64::MAX - VALIDITY_WINDOW,
        ensures
            match login_verdict(self@, email@, password@) {
                Err(f) => r == Err::<String, Failure>(f),
                Ok(rec) => (r matches Ok(t) ==> t@ == signed_token(
                    claim_text(rec.id, rec.email, now as nat, (now + VALIDITY_WINDOW) as nat),
                    codec.key(),
                ) && is_transport_form(t@)) && r is Ok,
            },
    {
        let rec = match self.find_by_email(email) {
            Some(rec) => rec,
            None => {
                return Err(Failure::InvalidCredentials);
            },
        };
        if !password_matches(password, rec.password_hash.as_str()) {
            return Err(Failure::InvalidCredentials);
        }
        let claims = TokenClaims::issue(Payload { id: rec.id.clone(), email: rec.email.clone() }, now);
        match codec.mint(&claims) {
            Ok(t) => Ok(t),
            Err(_) => Err(Failure::StoreUnavailable),
        }
    }
}

/// A login with an unknown email and one with a known email but the wrong
/// password come to the same failure, and so to the same response.
pub proof fn lemma_login_failures_alike(
    recs: Seq<CredentialView>,
    unknown: Seq<char>,
    any_password: Seq<char>,
    known: Seq<char>,
    wrong_password: Seq<char>,
)
    requires
        find_record(recs, unknown) is None,
        find_record(recs, known) matches Some(rec) && !argon2_accepts(wrong_password, rec.hash),
    ensures
        login_verdict(recs, unknown, any_password) == login_verdict(recs, known, wrong_password),
        login_verdict(recs, unknown, any_password) == Err::<CredentialView, Failure>(
            Failure::InvalidCredentials,
        ),
{
}

} // verus!
