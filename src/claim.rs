//! The identity claim and the canonical payload text it travels as:
//! `{"sub":"<id>","email":"<email>","iat":<n>,"exp":<n>}`, with the two text
//! fields escaped as JSON strings.
use vstd::prelude::*;
use vstd::string::*;
use crate::escape::{escaped, lemma_escaped_unique, push_escaped, scan_quoted};
use crate::text::{
    canonical_numeral, decimal, is_digit, lemma_decimal, numeral_value, push_decimal, run_ends_at,
    scan_number,
};

verus! {

/// Seconds that a session token stays valid after it was issued.
pub const VALIDITY_WINDOW: u64 = 86400;

/// The identity of an account: its unique id (a UUID in text form) and its
/// email. It carries no password.
#[derive(Clone, Debug, PartialEq, Eq)]
pub struct Payload {
    pub id: String,
    pub email: String,
}

/// What a token states: who its bearer is, and when it was issued and
/// expires (seconds since the epoch).
#[derive(Clone, Debug, PartialEq, Eq)]
pub struct TokenClaims {
    pub iat: u64,
    pub exp: u64,
    pub user: Payload,
}

/// What a claim states, as mathematical values.
pub struct ClaimView {
    pub sub: Seq<char>,
    pub email: Seq<char>,
    pub iat: nat,
    pub exp: nat,
}

impl ClaimView {
    /// `t` is the payload text of this claim, whose times fit a `u64`.
    pub open spec fn fits(self, t: Seq<char>) -> bool {
        fits(t, self.sub, self.email, self.iat, self.exp)
    }
}

impl View for TokenClaims {
    type V = ClaimView;

    open spec fn view(&self) -> ClaimView {
        ClaimView { sub: self.user.id@, email: self.user.email@, iat: self.iat as nat, exp: self.exp as nat }
    }
}

pub open spec fn lit_open() -> Seq<char> {
    "{\"sub\":\""@
}

pub open spec fn lit_email() -> Seq<char> {
    "\",\"email\":\""@
}

pub open spec fn lit_iat() -> Seq<char> {
    "\",\"iat\":"@
}

pub open spec fn lit_exp() -> Seq<char> {
    ",\"exp\":"@
}

pub open spec fn lit_close() -> Seq<char> {
    "}"@
}

/// The payload text of a claim with these fields.
pub open spec fn claim_text(sub: Seq<char>, email: Seq<char>, iat: nat, exp: nat) -> Seq<char> {
    lit_open() + (escaped(sub) + (lit_email() + (escaped(email) + (lit_iat() + (decimal(iat) + (
    lit_exp() + (decimal(exp) + lit_close())))))))
}

impl TokenClaims {
    pub open spec fn text(&self) -> Seq<char> {
        claim_text(self.user.id@, self.user.email@, self.iat as nat, self.exp as nat)
    }

    /// A claim issued at `now` under the process-wide validity window.
    pub open spec fn issued_at(&self, now: nat) -> bool {
        self.iat == now && self.exp == now + VALIDITY_WINDOW
    }

    /// The claims for `user`, issued at `now`.
    pub fn issue(user: Payload, now: u64) -> (r: TokenClaims)
        requires
            now <= u64::MAX - VALIDITY_WINDOW,
        ensures
            r.user == user,
            r.issued_at(now as nat),
    {
        TokenClaims { iat: now, exp: now + VALIDITY_WINDOW, user }
    }

    /// The canonical payload text of the claim.
    pub fn render(&self) -> (r: String)
        ensures
            r@ == self.text(),
    {
        let mut out = String::new();
        out.append("{\"sub\":\"");
        push_escaped(&mut out, self.user.id.as_str());
        out.append("\",\"email\":\"");
        push_escaped(&mut out, self.user.email.as_str());
        out.append("\",\"iat\":");
        push_decimal(&mut out, self.iat);
        out.append(",\"exp\":");
        push_decimal(&mut out, self.exp);
        out.append("}");
        assert(out@ =~= self.text());
        out
    }
}

/// Where the literal `lit` stands in `s` at `i`, the position after it.
fn expect_literal(s: &str, i: usize, lit: &str) -> (r: Option<usize>)
    requires
        i <= s@.len(),
    ensures
        match r {
            Some(j) => j == i + lit@.len() && j <= s@.len() && s@.subrange(i as int, j as int)
                == lit@,
            None => !(i + lit@.len() <= s@.len() && s@.subrange(i as int, i + lit@.len())
                == lit@),
        },
{
    let n: usize = s.unicode_len();
    let m: usize = lit.unicode_len();
    if m > n - i {
        return None;
    }
    let mut k: usize = 0;
    while k < m
        invariant
            n == s@.len(),
            m == lit@.len(),
            i + m <= n,
            k <= m,
            forall|t: int| 0 <= t < k ==> s@[i + t] == lit@[t],
        decreases m - k,
    {
        if s.get_char(i + k) != lit.get_char(k) {
            assert(s@.subrange(i as int, i + m)[k as int] == s@[i + k]);
            return None;
        }
        k = k + 1;
    }
    assert(s@.subrange(i as int, i + m) =~= lit@);
    Some(i + m)
}

/// The payload text of a claim whose times fit in a `u64`.
pub open spec fn fits(t: Seq<char>, sub: Seq<char>, email: Seq<char>, iat: nat, exp: nat) -> bool {
    &&& claim_text(sub, email, iat, exp) == t
    &&& iat <= u64::MAX
    &&& exp <= u64::MAX
}

proof fn lemma_split_literal(a: Seq<char>, r1: Seq<char>, r2: Seq<char>)
    requires
        a + r1 == a + r2,
    ensures
        r1 == r2,
{
    assert(r1 =~= (a + r1).subrange(a.len() as int, (a + r1).len() as int));
    assert(r2 =~= (a + r2).subrange(a.len() as int, (a + r2).len() as int));
}

/// Two numerals that are each closed by a character that is not a digit
/// split the same text at the same place.
proof fn lemma_split_number(n1: nat, r1: Seq<char>, n2: nat, r2: Seq<char>)
    requires
        decimal(n1) + r1 == decimal(n2) + r2,
        r1.len() > 0,
        r2.len() > 0,
        !is_digit(r1[0]),
        !is_digit(r2[0]),
    ensures
        n1 == n2,
        r1 == r2,
{
    lemma_decimal(n1);
    lemma_decimal(n2);
    let f1 = decimal(n1);
    let f2 = decimal(n2);
    let t = f1 + r1;
    if f1.len() < f2.len() {
        assert(t[f1.len() as int] == r1[0]);
        assert(t[f1.len() as int] == f2[f1.len() as int]);
        assert(is_digit(f2[f1.len() as int]));
    } else if f2.len() < f1.len() {
        assert(t[f2.len() as int] == r2[0]);
        assert(t[f2.len() as int] == f1[f2.len() as int]);
        assert(is_digit(f1[f2.len() as int]));
    }
    assert(f1 =~= t.subrange(0, f1.len() as int));
    assert(f2 =~= t.subrange(0, f2.len() as int));
    assert(r1 =~= t.subrange(f1.len() as int, t.len() as int));
    assert(r2 =~= t.subrange(f2.len() as int, t.len() as int));
}

proof fn lemma_literals()
    ensures
        lit_open().len() == 8,
        lit_email().len() == 11,
        lit_email() == seq!['"'] + lit_email().drop_first(),
        lit_iat().len() == 8,
        lit_iat() == seq!['"'] + lit_iat().drop_first(),
        lit_exp().len() == 7,
        lit_exp()[0] == ',',
        lit_close().len() == 1,
        lit_close()[0] == '}',
{
    reveal_strlit("{\"sub\":\"");
    reveal_strlit("\",\"email\":\"");
    reveal_strlit("\",\"iat\":");
    reveal_strlit(",\"exp\":");
    reveal_strlit("}");
    assert(lit_email() =~= seq!['"'] + lit_email().drop_first());
    assert(lit_iat() =~= seq!['"'] + lit_iat().drop_first());
}

/// Distinct claims have distinct payload texts.
pub proof fn lemma_claim_text_injective(
    t: Seq<char>,
    sub1: Seq<char>, email1: Seq<char>, iat1: nat, exp1: nat,
    sub2: Seq<char>, email2: Seq<char>, iat2: nat, exp2: nat,
)
    requires
        fits(t, sub1, email1, iat1, exp1),
        fits(t, sub2, email2, iat2, exp2),
    ensures
        sub1 == sub2 && email1 == email2 && iat1 == iat2 && exp1 == exp2,
{
    lemma_literals();
    let tail1 = lit_exp() + (decimal(exp1) + lit_close());
    let tail2 = lit_exp() + (decimal(exp2) + lit_close());
    let m1 = lit_iat() + (decimal(iat1) + tail1);
    let m2 = lit_iat() + (decimal(iat2) + tail2);
    let e1 = lit_email() + (escaped(email1) + m1);
    let e2 = lit_email() + (escaped(email2) + m2);
    lemma_split_literal(lit_open(), escaped(sub1) + e1, escaped(sub2) + e2);
    let q = lit_email().drop_first();
    assert(e1 =~= seq!['"'] + (q + (escaped(email1) + m1)));
    assert(e2 =~= seq!['"'] + (q + (escaped(email2) + m2)));
    lemma_escaped_unique(sub1, q + (escaped(email1) + m1), sub2, q + (escaped(email2) + m2));
    lemma_split_literal(lit_email(), escaped(email1) + m1, escaped(email2) + m2);
    let p = lit_iat().drop_first();
    assert(m1 =~= seq!['"'] + (p + (decimal(iat1) + tail1)));
    assert(m2 =~= seq!['"'] + (p + (decimal(iat2) + tail2)));
    lemma_escaped_unique(email1, p + (decimal(iat1) + tail1), email2, p + (decimal(iat2) + tail2));
    lemma_split_literal(lit_iat(), decimal(iat1) + tail1, decimal(iat2) + tail2);
    lemma_split_number(iat1, tail1, iat2, tail2);
    lemma_split_literal(lit_exp(), decimal(exp1) + lit_close(), decimal(exp2) + lit_close());
    lemma_split_number(exp1, lit_close(), exp2, lit_close());
}

/// `s` from `i` on reads `a` followed by `rest`.
pub open spec fn reads_at(s: Seq<char>, i: int, a: Seq<char>, rest: Seq<char>) -> bool {
    0 <= i <= s.len() && s.subrange(i, s.len() as int) == a + rest
}

proof fn lemma_reads_step(s: Seq<char>, i: int, a: Seq<char>, rest: Seq<char>)
    requires
        reads_at(s, i, a, rest),
    ensures
        i + a.len() <= s.len(),
        s.subrange(i, i + a.len()) == a,
        s.subrange(i + a.len(), s.len() as int) == rest,
        rest.len() > 0 ==> s[i + a.len()] == rest[0],
{
    let t = s.subrange(i, s.len() as int);
    assert(t.len() == a.len() + rest.len());
    assert(t.subrange(0, a.len() as int) =~= a);
    assert(s.subrange(i, i + a.len()) =~= t.subrange(0, a.len() as int));
    assert(s.subrange(i + a.len(), s.len() as int) =~= t.subrange(a.len() as int, t.len() as int));
    assert(t.subrange(a.len() as int, t.len() as int) =~= rest);
    if rest.len() > 0 {
        assert(t[a.len() as int] == rest[0]);
    }
}

/// Where the numeral of `v` closed by a character that is not a digit starts
/// at `i`, the run of digits from `i` ends after it.
proof fn lemma_number_at(s: Seq<char>, i: int, v: nat, rest: Seq<char>)
    requires
        reads_at(s, i, decimal(v), rest),
        rest.len() > 0,
        !is_digit(rest[0]),
    ensures
        run_ends_at(s, i, i + decimal(v).len()),
        canonical_numeral(s.subrange(i, i + decimal(v).len())),
        numeral_value(s.subrange(i, i + decimal(v).len())) == v,
        forall|j: int| run_ends_at(s, i, j) ==> j == i + decimal(v).len(),
{
    lemma_reads_step(s, i, decimal(v), rest);
    lemma_decimal(v);
    assert forall|j: int| run_ends_at(s, i, j) implies j == i + decimal(v).len() by {
        let k = i + decimal(v).len();
        if j < k {
            assert(s.subrange(i, k)[j - i] == s[j]);
            assert(is_digit(s.subrange(i, k)[j - i]));
        } else if k < j {
            assert(s.subrange(i, j)[k - i] == s[k]);
            assert(is_digit(s.subrange(i, j)[k - i]));
        }
    }
}

pub open spec fn head_text(sub: Seq<char>, email: Seq<char>, rest: Seq<char>) -> Seq<char> {
    lit_open() + (escaped(sub) + (lit_email() + (escaped(email) + (lit_iat() + rest))))
}

pub open spec fn tail_text(iat: nat, exp: nat) -> Seq<char> {
    decimal(iat) + (lit_exp() + (decimal(exp) + lit_close()))
}

/// A quoted field's escaped text followed by `lit` and `rest`.
pub open spec fn field_text(f: Seq<char>, lit: Seq<char>, rest: Seq<char>) -> Seq<char> {
    escaped(f) + (lit + rest)
}

/// Reads a quoted field that starts at `i` and the literal `lit` (which
/// opens with the field's closing quote) after it.
fn field_then(s: &str, i: usize, lit: &str) -> (r: Option<(String, usize)>)
    requires
        i <= s@.len(),
        lit@.len() >= 1,
        lit@ == seq!['"'] + lit@.drop_first(),
    ensures
        r matches Some((f, j)) ==> i <= j <= s@.len() && s@.subrange(i as int, s@.len() as int)
            == field_text(f@, lit@, s@.subrange(j as int, s@.len() as int)),
        forall|f: Seq<char>, rest: Seq<char>|
            #![trigger field_text(f, lit@, rest)]
            s@.subrange(i as int, s@.len() as int) == field_text(f, lit@, rest) ==> (r matches Some(
                (g, j),
            ) && g@ == f && j == s@.len() - rest.len()),
{
    let ghost t = s@;
    let ghost q = lit@.drop_first();
    proof {
        assert forall|f: Seq<char>, rest: Seq<char>|
            #![trigger field_text(f, lit@, rest)]
            t.subrange(i as int, t.len() as int) == field_text(f, lit@, rest) implies t.subrange(
                i as int,
                t.len() as int,
            ) == crate::escape::quoted_text(f, q + rest) by {
            assert(lit@ + rest =~= seq!['"'] + (q + rest));
        }
    }
    let (f, j) = match scan_quoted(s, i) {
        Some(x) => x,
        None => {
            return None;
        },
    };
    let k = match expect_literal(s, j, lit) {
        Some(k) => k,
        None => {
            proof {
                assert forall|f1: Seq<char>, rest: Seq<char>|
                    #![trigger field_text(f1, lit@, rest)]
                    !(t.subrange(i as int, t.len() as int) == field_text(f1, lit@, rest)) by {
                    if t.subrange(i as int, t.len() as int) == field_text(f1, lit@, rest) {
                        let whole = t.subrange(i as int, t.len() as int);
                        assert(whole.subrange(j - i, j - i + lit@.len()) =~= lit@);
                        assert(t.subrange(j as int, j + lit@.len()) =~= whole.subrange(j - i, j - i + lit@.len()));
                    }
                }
            }
            return None;
        },
    };
    proof {
        let whole = t.subrange(i as int, t.len() as int);
        assert(whole =~= t.subrange(i as int, j as int) + (t.subrange(j as int, k as int) + t.subrange(k as int, t.len() as int)));
        assert forall|f1: Seq<char>, rest: Seq<char>|
            #![trigger field_text(f1, lit@, rest)]
            whole == field_text(f1, lit@, rest) implies f@ == f1 && k == t.len() - rest.len() by {
            assert(lit@ + rest =~= seq!['"'] + (q + rest));
        }
    }
    Some((f, k))
}

/// Reads the two text fields, up to where the issue time starts.
fn parse_head(s: &str) -> (r: Option<(String, String, usize)>)
    ensures
        r matches Some((a, b, i)) ==> i <= s@.len() && s@ == head_text(
            a@,
            b@,
            s@.subrange(i as int, s@.len() as int),
        ),
        forall|sub: Seq<char>, email: Seq<char>, rest: Seq<char>|
            #![trigger head_text(sub, email, rest)]
            s@ == head_text(sub, email, rest) ==> (r matches Some((a, b, i)) && a@ == sub && b@
                == email && i == s@.len() - rest.len()),
{
    proof {
        lemma_literals();
        reveal_strlit("\",\"email\":\"");
        reveal_strlit("\",\"iat\":");
    }
    let ghost t = s@;
    let i1 = match expect_literal(s, 0, "{\"sub\":\"") {
        Some(j) => j,
        None => {
            proof {
                assert forall|sub: Seq<char>, email: Seq<char>, rest: Seq<char>|
                    #![trigger head_text(sub, email, rest)]
                    !(t == head_text(sub, email, rest)) by {
                    if t == head_text(sub, email, rest) {
                        assert(t.subrange(0, 8) =~= lit_open());
                    }
                }
            }
            return None;
        },
    };
    proof {
        assert forall|sub: Seq<char>, email: Seq<char>, rest: Seq<char>|
            #![trigger head_text(sub, email, rest)]
            t == head_text(sub, email, rest) implies t.subrange(8, t.len() as int) == field_text(sub,
            lit_email(), field_text(email, lit_iat(), rest)) by {
            assert(t.subrange(8, t.len() as int) =~= escaped(sub) + (lit_email() + (escaped(email) + (
                lit_iat() + rest))));
        }
    }
    let (sub, i2) = match field_then(s, i1, "\",\"email\":\"") {
        Some(x) => x,
        None => {
            return None;
        },
    };
    let (email, i3) = match field_then(s, i2, "\",\"iat\":") {
        Some(x) => x,
        None => {
            proof {
                assert forall|sub1: Seq<char>, email1: Seq<char>, rest1: Seq<char>|
                    #![trigger head_text(sub1, email1, rest1)]
                    !(t == head_text(sub1, email1, rest1)) by {
                    if t == head_text(sub1, email1, rest1) {
                        let x = field_text(email1, lit_iat(), rest1);
                        let w = t.subrange(8, t.len() as int);
                        assert(w == field_text(sub1, lit_email(), x));
                        assert(w =~= (escaped(sub1) + lit_email()) + x);
                        assert(t.subrange(i2 as int, t.len() as int) =~= w.subrange(i2 - 8, w.len() as int));
                        assert(t.subrange(i2 as int, t.len() as int) =~= x);
                    }
                }
            }
            return None;
        },
    };
    proof {
        let rest = t.subrange(i3 as int, t.len() as int);
        assert(t =~= lit_open() + t.subrange(8, t.len() as int));
        assert(t == head_text(sub@, email@, rest));
        assert forall|sub1: Seq<char>, email1: Seq<char>, rest1: Seq<char>|
            #![trigger head_text(sub1, email1, rest1)]
            t == head_text(sub1, email1, rest1) implies sub@ == sub1 && email@ == email1 && i3
                == t.len() - rest1.len() by {
            let x = field_text(email1, lit_iat(), rest1);
            let w = t.subrange(8, t.len() as int);
            assert(w == field_text(sub1, lit_email(), x));
            assert(w =~= (escaped(sub1) + lit_email()) + x);
            assert(t.subrange(i2 as int, t.len() as int) =~= w.subrange(i2 - 8, w.len() as int));
            assert(t.subrange(i2 as int, t.len() as int) =~= x);
        }
    }
    Some((sub, email, i3))
}

/// Reads the two times from `i` to the end of the payload.
fn parse_tail(s: &str, i: usize) -> (r: Option<(u64, u64)>)
    requires
        i <= s@.len(),
    ensures
        r matches Some((x, y)) ==> s@.subrange(i as int, s@.len() as int) == tail_text(
            x as nat,
            y as nat,
        ),
        forall|x: nat, y: nat|
            #![trigger tail_text(x, y)]
            x <= u64::MAX && y <= u64::MAX && s@.subrange(i as int, s@.len() as int) == tail_text(x, y)
                ==> r == Some((x as u64, y as u64)),
{
    proof {
        lemma_literals();
    }
    let ghost t = s@;
    let ghost u = t.subrange(i as int, t.len() as int);
    let ghost fit = exists|w: (nat, nat)| w.0 <= u64::MAX && w.1 <= u64::MAX && u == tail_text(w.0, w.1);
    let ghost w0 = choose|w: (nat, nat)| w.0 <= u64::MAX && w.1 <= u64::MAX && u == tail_text(w.0, w.1);
    let ghost (x0, y0) = w0;
    let ghost k0 = lit_exp() + (decimal(y0) + lit_close());
    proof {
        assert forall|x: nat, y: nat|
            #![trigger tail_text(x, y)]
            x <= u64::MAX && y <= u64::MAX && u == tail_text(x, y) implies fit by {
            let w = (x, y);
            assert(w.0 <= u64::MAX && w.1 <= u64::MAX && u == tail_text(w.0, w.1));
        }
        if fit {
            assert(reads_at(t, i as int, decimal(x0), k0));
            lemma_number_at(t, i as int, x0, k0);
        }
    }
    let (x, j3) = match scan_number(s, i) {
        Some(p) => p,
        None => {
            return None;
        },
    };
    proof {
        if fit {
            lemma_reads_step(t, i as int, decimal(x0), k0);
            lemma_reads_step(t, j3 as int, lit_exp(), decimal(y0) + lit_close());
        }
    }
    let i4 = match expect_literal(s, j3, ",\"exp\":") {
        Some(j) => j,
        None => {
            return None;
        },
    };
    proof {
        if fit {
            lemma_number_at(t, i4 as int, y0, lit_close());
        }
    }
    let (y, j4) = match scan_number(s, i4) {
        Some(p) => p,
        None => {
            return None;
        },
    };
    proof {
        if fit {
            lemma_reads_step(t, i4 as int, decimal(y0), lit_close());
            lemma_reads_step(t, j4 as int, lit_close(), seq![]);
        }
    }
    let i5 = match expect_literal(s, j4, "}") {
        Some(j) => j,
        None => {
            return None;
        },
    };
    if i5 != s.unicode_len() {
        return None;
    }
    proof {
        crate::text::lemma_canonical_is_decimal(t.subrange(i as int, j3 as int));
        crate::text::lemma_canonical_is_decimal(t.subrange(i4 as int, j4 as int));
        assert(u =~= t.subrange(i as int, j3 as int) + (t.subrange(j3 as int, i4 as int) + (t.subrange(
            i4 as int, j4 as int) + t.subrange(j4 as int, i5 as int))));
        assert(u == tail_text(x as nat, y as nat));
        assert forall|x1: nat, y1: nat|
            #![trigger tail_text(x1, y1)]
            x1 <= u64::MAX && y1 <= u64::MAX && u == tail_text(x1, y1) implies x1 == x && y1 == y by {
            let k1 = lit_exp() + (decimal(y1) + lit_close());
            let k = lit_exp() + (decimal(y as nat) + lit_close());
            lemma_split_number(x1, k1, x as nat, k);
            lemma_split_literal(lit_exp(), decimal(y1) + lit_close(), decimal(y as nat) + lit_close());
            lemma_split_number(y1, lit_close(), y as nat, lit_close());
        }
    }
    Some((x, y))
}

/// Reads a payload text back into the claim it was rendered from. Only the
/// canonical text of a claim is accepted.
pub fn parse_claim(s: &str) -> (r: Option<TokenClaims>)
    ensures
        r matches Some(c) ==> c.text() == s@,
        forall|sub: Seq<char>, email: Seq<char>, iat: nat, exp: nat|
            #![trigger claim_text(sub, email, iat, exp)]
            fits(s@, sub, email, iat, exp) ==> (r matches Some(c) && c.user.id@ == sub && c.user.email@
                == email && c.iat == iat && c.exp == exp),
{
    let ghost t = s@;
    proof {
        assert forall|sub: Seq<char>, email: Seq<char>, iat: nat, exp: nat|
            #![trigger claim_text(sub, email, iat, exp)]
            claim_text(sub, email, iat, exp) == head_text(sub, email, tail_text(iat, exp)) by {}
    }
    let (sub, email, i) = match parse_head(s) {
        Some(h) => h,
        None => {
            return None;
        },
    };
    let (iat, exp) = match parse_tail(s, i) {
        Some(p) => p,
        None => {
            proof {
                assert forall|sub1: Seq<char>, email1: Seq<char>, iat1: nat, exp1: nat|
                    #![trigger claim_text(sub1, email1, iat1, exp1)]
                    !fits(t, sub1, email1, iat1, exp1) by {
                    if fits(t, sub1, email1, iat1, exp1) {
                        assert(t == head_text(sub1, email1, tail_text(iat1, exp1)));
                        let r = tail_text(iat1, exp1);
                        assert(t.subrange(i as int, t.len() as int) =~= r);
                    }
                }
            }
            return None;
        },
    };
    let c = TokenClaims { iat, exp, user: Payload { id: sub, email } };
    proof {
        assert(t == head_text(c.user.id@, c.user.email@, tail_text(iat as nat, exp as nat)));
        assert(c.text() == t);
        assert forall|sub1: Seq<char>, email1: Seq<char>, iat1: nat, exp1: nat|
            #![trigger claim_text(sub1, email1, iat1, exp1)]
            fits(t, sub1, email1, iat1, exp1) implies c.user.id@ == sub1 && c.user.email@ == email1 && c.iat
                == iat1 && c.exp == exp1 by {
            let r = tail_text(iat1, exp1);
            assert(t == head_text(sub1, email1, r));
            assert(t.subrange(i as int, t.len() as int) =~= r);
        }
    }
    Some(c)
}

} // verus!
