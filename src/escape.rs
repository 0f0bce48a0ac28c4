//! JSON string escaping of the payload's text fields: a quote and a backslash
//! are written behind a backslash, a control character as `\u00XX`, and
//! every other character as it is.
use vstd::prelude::*;
use vstd::string::*;
use crate::text::push_char;

verus! {

/// The lower-case hex digit of `d` (`d < 16`).
pub open spec fn hex_char(d: nat) -> char {
    if d < 10 {
        ((d + 48) as u8) as char
    } else {
        ((d + 87) as u8) as char
    }
}

/// How one character is written inside a quoted field.
pub open spec fn esc(c: char) -> Seq<char> {
    if c == '"' {
        seq!['\\', '"']
    } else if c == '\\' {
        seq!['\\', '\\']
    } else if (c as u32) < 32 {
        seq!['\\', 'u', '0', '0', hex_char((c as u32 / 16) as nat), hex_char((c as u32 % 16) as nat)]
    } else {
        seq![c]
    }
}

/// How a text is written inside a quoted field.
pub open spec fn escaped(s: Seq<char>) -> Seq<char>
    decreases s.len(),
{
    if s.len() == 0 {
        Seq::empty()
    } else {
        escaped(s.drop_last()) + esc(s.last())
    }
}

pub proof fn lemma_escaped_push(s: Seq<char>, c: char)
    ensures
        escaped(s.push(c)) == escaped(s) + esc(c),
{
    assert(s.push(c).drop_last() =~= s);
}

pub proof fn lemma_escaped_concat(a: Seq<char>, b: Seq<char>)
    ensures
        escaped(a + b) == escaped(a) + escaped(b),
    decreases b.len(),
{
    if b.len() == 0 {
        assert(a + b =~= a);
        assert(escaped(a) + escaped(b) =~= escaped(a));
    } else {
        lemma_escaped_concat(a, b.drop_last());
        assert((a + b).drop_last() =~= a + b.drop_last());
        assert((a + b).last() == b.last());
    }
}

proof fn lemma_escaped_first(s: Seq<char>)
    requires
        s.len() > 0,
    ensures
        escaped(s) == esc(s[0]) + escaped(s.drop_first()),
{
    assert(s =~= seq![s[0]] + s.drop_first());
    lemma_escaped_concat(seq![s[0]], s.drop_first());
    let one = seq![s[0]];
    assert(one.drop_last() =~= Seq::<char>::empty());
    assert(one.last() == s[0]);
    assert(escaped(one.drop_last()) == Seq::<char>::empty());
    assert(escaped(one) == escaped(one.drop_last()) + esc(one.last()));
    assert(escaped(one) =~= esc(s[0]));
}

proof fn lemma_hex(d: nat, e: nat)
    requires
        d < 16,
        e < 16,
    ensures
        hex_char(d) != '"' && hex_char(d) != '\\',
        hex_char(d) == hex_char(e) ==> d == e,
{
}

proof fn lemma_esc_shape(c: char)
    ensures
        esc(c).len() >= 1,
        esc(c)[0] != '"',
        esc(c)[0] == '\\' <==> (c == '"' || c == '\\' || (c as u32) < 32),
{
}

/// Two characters whose escapes both open the same text are the same.
proof fn lemma_esc_prefix(a: char, b: char, t: Seq<char>)
    requires
        esc(a).len() <= t.len(),
        esc(b).len() <= t.len(),
        t.subrange(0, esc(a).len() as int) == esc(a),
        t.subrange(0, esc(b).len() as int) == esc(b),
    ensures
        a == b,
{
    lemma_esc_shape(a);
    lemma_esc_shape(b);
    assert(t[0] == esc(a)[0]) by {
        assert(t.subrange(0, esc(a).len() as int)[0] == t[0]);
    }
    assert(t[0] == esc(b)[0]) by {
        assert(t.subrange(0, esc(b).len() as int)[0] == t[0]);
    }
    if esc(a)[0] == '\\' {
        assert(t[1] == esc(a)[1]) by {
            assert(t.subrange(0, esc(a).len() as int)[1] == t[1]);
        }
        assert(t[1] == esc(b)[1]) by {
            assert(t.subrange(0, esc(b).len() as int)[1] == t[1]);
        }
        if (a as u32) < 32 && a != '"' && a != '\\' {
            assert(t.subrange(0, esc(a).len() as int)[4] == t[4]);
            assert(t.subrange(0, esc(a).len() as int)[5] == t[5]);
            assert(t.subrange(0, esc(b).len() as int)[4] == t[4]);
            assert(t.subrange(0, esc(b).len() as int)[5] == t[5]);
            lemma_hex((a as u32 / 16) as nat, (b as u32 / 16) as nat);
            lemma_hex((a as u32 % 16) as nat, (b as u32 % 16) as nat);
            assert(a as u32 == (a as u32 / 16) * 16 + a as u32 % 16);
            assert(b as u32 == (b as u32 / 16) * 16 + b as u32 % 16);
        }
    }
}

/// A quoted field followed by its closing quote splits a text in one way only.
pub proof fn lemma_escaped_unique(f1: Seq<char>, r1: Seq<char>, f2: Seq<char>, r2: Seq<char>)
    requires
        escaped(f1) + (seq!['"'] + r1) == escaped(f2) + (seq!['"'] + r2),
    ensures
        f1 == f2,
        r1 == r2,
    decreases f1.len(),
{
    let t = escaped(f1) + (seq!['"'] + r1);
    if f1.len() == 0 {
        assert(escaped(f1) =~= Seq::<char>::empty());
        if f2.len() > 0 {
            lemma_escaped_first(f2);
            lemma_esc_shape(f2[0]);
            assert(t[0] == esc(f2[0])[0]);
        }
        assert(escaped(f2) =~= Seq::<char>::empty());
        assert(r1 =~= t.subrange(1, t.len() as int));
        assert(r2 =~= t.subrange(1, t.len() as int));
    } else {
        lemma_escaped_first(f1);
        lemma_esc_shape(f1[0]);
        if f2.len() == 0 {
            assert(escaped(f2) =~= Seq::<char>::empty());
            assert(t[0] == esc(f1[0])[0]);
        } else {
            lemma_escaped_first(f2);
            lemma_esc_shape(f2[0]);
            let u1 = escaped(f1.drop_first()) + (seq!['"'] + r1);
            let u2 = escaped(f2.drop_first()) + (seq!['"'] + r2);
            assert(t =~= esc(f1[0]) + u1);
            assert(t =~= esc(f2[0]) + u2);
            assert(t.subrange(0, esc(f1[0]).len() as int) =~= esc(f1[0]));
            assert(t.subrange(0, esc(f2[0]).len() as int) =~= esc(f2[0]));
            lemma_esc_prefix(f1[0], f2[0], t);
            assert(u1 =~= t.subrange(esc(f1[0]).len() as int, t.len() as int));
            assert(u2 =~= t.subrange(esc(f2[0]).len() as int, t.len() as int));
            lemma_escaped_unique(f1.drop_first(), r1, f2.drop_first(), r2);
            assert(f1 =~= seq![f1[0]] + f1.drop_first());
            assert(f2 =~= seq![f2[0]] + f2.drop_first());
        }
    }
}

fn hex_digit(d: u32) -> (r: char)
    requires
        d < 16,
    ensures
        r == hex_char(d as nat),
{
    if d < 10 {
        ((d + 48) as u8) as char
    } else {
        ((d + 87) as u8) as char
    }
}

/// Appends `s` as it is written inside a quoted field.
pub fn push_escaped(out: &mut String, s: &str)
    ensures
        final(out)@ == old(out)@ + escaped(s@),
{
    let n: usize = s.unicode_len();
    let mut i: usize = 0;
    let ghost start = out@;
    while i < n
        invariant
            n == s@.len(),
            i <= n,
            out@ == start + escaped(s@.subrange(0, i as int)),
        decreases n - i,
    {
        let c: char = s.get_char(i);
        let ghost before = out@;
        if c == '"' {
            push_char(out, '\\');
            push_char(out, '"');
        } else if c == '\\' {
            push_char(out, '\\');
            push_char(out, '\\');
        } else if (c as u32) < 32 {
            push_char(out, '\\');
            push_char(out, 'u');
            push_char(out, '0');
            push_char(out, '0');
            push_char(out, hex_digit(c as u32 / 16));
            push_char(out, hex_digit(c as u32 % 16));
        } else {
            push_char(out, c);
        }
        proof {
            assert(out@ =~= before + esc(c));
            lemma_escaped_push(s@.subrange(0, i as int), c);
            assert(s@.subrange(0, i as int).push(c) =~= s@.subrange(0, i + 1));
        }
        i = i + 1;
    }
    assert(s@.subrange(0, n as int) =~= s@);
}

proof fn lemma_escape_at(s: Seq<char>, k: int, y: char)
    requires
        0 <= k,
        k + esc(y).len() <= s.len(),
        s.subrange(k, k + esc(y).len()) == esc(y),
    ensures
        forall|j: int| 0 <= j < esc(y).len() ==> s[k + j] == #[trigger] esc(y)[j],
        esc(y)[0] != '"',
        s[k] == '\\' <==> (y == '"' || y == '\\' || (y as u32) < 32),
        s[k] != '\\' ==> (y as u32) >= 32 && esc(y).len() == 1,
        (y as u32) < 32 && y != '"' && y != '\\' ==> esc(y).len() == 6 && s[k + 1] == 'u' && s[k + 2]
            == '0' && s[k + 3] == '0' && (s[k + 4] == '0' || s[k + 4] == '1') && (('0' <= s[k + 5]
            && s[k + 5] <= '9') || ('a' <= s[k + 5] && s[k + 5] <= 'f')),
        y == '"' || y == '\\' ==> esc(y).len() == 2 && s[k + 1] == y,
{
    lemma_esc_shape(y);
    assert forall|j: int| 0 <= j < esc(y).len() implies s[k + j] == #[trigger] esc(y)[j] by {
        assert(s.subrange(k, k + esc(y).len())[j] == s[k + j]);
    }
}

/// A quoted field's escaped text, its closing quote and what follows.
pub open spec fn quoted_text(f: Seq<char>, rest: Seq<char>) -> Seq<char> {
    escaped(f) + (seq!['"'] + rest)
}

/// Spells out what an escape standing at `k` would put there, for every
/// character.
proof fn lemma_no_escape(s: Seq<char>, k: int)
    requires
        0 <= k,
    ensures
        forall|y: char|
            #![trigger esc(y)]
            k + esc(y).len() <= s.len() && s.subrange(k, k + esc(y).len()) == esc(y) ==> {
                &&& s[k] == '\\' <==> (y == '"' || y == '\\' || (y as u32) < 32)
                &&& s[k] != '\\' ==> (y as u32) >= 32 && s[k] == y
                &&& (y as u32) < 32 && y != '"' && y != '\\' ==> k + 5 < s.len() && s[k + 1] == 'u'
                    && s[k + 2] == '0' && s[k + 3] == '0' && (s[k + 4] == '0' || s[k + 4] == '1') && ((
                '0' <= s[k + 5] && s[k + 5] <= '9') || ('a' <= s[k + 5] && s[k + 5] <= 'f'))
                &&& y == '"' || y == '\\' ==> k + 1 < s.len() && s[k + 1] == y
            },
{
    assert forall|y: char|
        #![trigger esc(y)]
        k + esc(y).len() <= s.len() && s.subrange(k, k + esc(y).len()) == esc(y) implies {
            &&& s[k] == '\\' <==> (y == '"' || y == '\\' || (y as u32) < 32)
            &&& s[k] != '\\' ==> (y as u32) >= 32 && s[k] == y
            &&& (y as u32) < 32 && y != '"' && y != '\\' ==> k + 5 < s.len() && s[k + 1] == 'u' && s[k
                + 2] == '0' && s[k + 3] == '0' && (s[k + 4] == '0' || s[k + 4] == '1') && (('0' <= s[k
                + 5] && s[k + 5] <= '9') || ('a' <= s[k + 5] && s[k + 5] <= 'f'))
            &&& y == '"' || y == '\\' ==> k + 1 < s.len() && s[k + 1] == y
        } by {
        lemma_escape_at(s, k, y);
    }
}

/// Reads the one escaped character that starts at `k`, and its width.
fn read_escaped_char(s: &str, k: usize) -> (r: Option<(char, usize)>)
    requires
        k < s@.len(),
        s@[k as int] != '"',
    ensures
        r matches Some((x, w)) ==> w == esc(x).len() && k + w <= s@.len() && s@.subrange(
            k as int,
            k + w,
        ) == esc(x),
        forall|y: char|
            #![trigger esc(y)]
            k + esc(y).len() <= s@.len() && s@.subrange(k as int, k + esc(y).len()) == esc(y) ==> r is Some,
{
    let n: usize = s.unicode_len();
    let c: char = s.get_char(k);
    proof {
        assert forall|y: char|
            #![trigger esc(y)]
            k + esc(y).len() <= s@.len() && s@.subrange(k as int, k + esc(y).len()) == esc(y) implies forall|j: int|
                0 <= j < esc(y).len() ==> s@[k + j] == #[trigger] esc(y)[j] by {
            assert forall|j: int| 0 <= j < esc(y).len() implies s@[k + j] == #[trigger] esc(y)[j] by {
                assert(s@.subrange(k as int, k + esc(y).len())[j] == s@[k + j]);
            }
        }
    }
    if c == '\\' {
        if k + 1 >= n {
            proof {
                lemma_no_escape(s@, k as int);
            }
            return None;
        }
        let d: char = s.get_char(k + 1);
        if d == '"' || d == '\\' {
            assert(s@.subrange(k as int, k + 2) =~= esc(d));
            return Some((d, 2));
        } else if d == 'u' {
            if n - k <= 5 {
                proof {
                    lemma_no_escape(s@, k as int);
                }
                return None;
            }
            let z1 = s.get_char(k + 2);
            let z2 = s.get_char(k + 3);
            let h = s.get_char(k + 4);
            let l = s.get_char(k + 5);
            if z1 != '0' || z2 != '0' || (h != '0' && h != '1') {
                proof {
                    lemma_no_escape(s@, k as int);
                }
                return None;
            }
            let lo: u32 = if '0' <= l && l <= '9' {
                (l as u32) - 48
            } else if 'a' <= l && l <= 'f' {
                (l as u32) - 87
            } else {
                proof {
                    lemma_no_escape(s@, k as int);
                }
                return None;
            };
            let code: u32 = ((h as u32) - 48) * 16 + lo;
            let x: char = (code as u8) as char;
            assert(x as u32 == code);
            assert(code / 16 == (h as u32) - 48 && code % 16 == lo);
            assert(s@.subrange(k as int, k + 6) =~= esc(x));
            return Some((x, 6));
        } else {
            proof {
                lemma_no_escape(s@, k as int);
            }
            return None;
        }
    } else if (c as u32) < 32 {
        proof {
            lemma_no_escape(s@, k as int);
        }
        return None;
    }
    assert(s@.subrange(k as int, k + 1) =~= esc(c));
    Some((c, 1))
}

/// Reads a quoted field that starts at `i`, up to its closing quote: the text
/// it holds and where the closing quote stands. Only the escapes that
/// `push_escaped` writes are accepted.
#[verifier::rlimit(100)]
#[verifier::spinoff_prover]
pub fn scan_quoted(s: &str, i: usize) -> (r: Option<(String, usize)>)
    requires
        i <= s@.len(),
    ensures
        r matches Some((f, j)) ==> i <= j < s@.len() && s@.subrange(i as int, j as int) == escaped(
            f@,
        ) && s@[j as int] == '"',
        forall|f: Seq<char>, rest: Seq<char>|
            #![trigger quoted_text(f, rest)]
            s@.subrange(i as int, s@.len() as int) == quoted_text(f, rest) ==> (r matches Some(
                (g, j),
            ) && g@ == f && j == s@.len() - rest.len() - 1),
{
    let ghost t = s@;
    let ghost fit = exists|w: (Seq<char>, Seq<char>)| t.subrange(i as int, t.len() as int) == escaped(w.0) + (seq!['"'] + w.1);
    let ghost w0 = choose|w: (Seq<char>, Seq<char>)| t.subrange(i as int, t.len() as int) == escaped(w.0) + (seq!['"'] + w.1);
    let ghost f0 = w0.0;
    let n: usize = s.unicode_len();
    let mut out = String::new();
    let mut k: usize = i;
    proof {
        assert forall|f: Seq<char>, rest: Seq<char>|
            #![trigger quoted_text(f, rest)]
            t.subrange(i as int, t.len() as int) == quoted_text(f, rest) implies fit by {
            let w = (f, rest);
            assert(t.subrange(i as int, t.len() as int) == escaped(w.0) + (seq!['"'] + w.1));
        }
        assert(t.subrange(i as int, i as int) =~= escaped(out@));
        assert(out@.len() == 0 && out@ =~= f0.subrange(0, 0));
    }
    loop
        invariant
            n == t.len(),
            t == s@,
            i <= k <= n,
            t.subrange(i as int, k as int) == escaped(out@),
            fit ==> t.subrange(i as int, t.len() as int) == escaped(f0) + (seq!['"'] + w0.1),
            forall|f: Seq<char>, rest: Seq<char>|
                #![trigger quoted_text(f, rest)]
                t.subrange(i as int, t.len() as int) == quoted_text(f, rest) ==> fit,
            fit ==> out@.len() <= f0.len() && out@ == f0.subrange(0, out@.len() as int),
        decreases n - k,
    {
        let ghost m = out@.len();
        let ghost before = out@;
        proof {
            if fit {
                // The rest of the text is the rest of the field, its quote and what follows.
                lemma_escaped_concat(f0.subrange(0, m as int), f0.subrange(m as int, f0.len() as int));
                assert(f0 =~= f0.subrange(0, m as int) + f0.subrange(m as int, f0.len() as int));
                let u = t.subrange(k as int, t.len() as int);
                let a = escaped(f0.subrange(0, m as int));
                let whole = t.subrange(i as int, t.len() as int);
                assert(whole =~= t.subrange(i as int, k as int) + u);
                assert(whole =~= a + (escaped(f0.subrange(m as int, f0.len() as int)) + (seq!['"'] + w0.1)));
                assert(u =~= whole.subrange(a.len() as int, whole.len() as int));
                assert(u =~= escaped(f0.subrange(m as int, f0.len() as int)) + (seq!['"'] + w0.1));
                if m < f0.len() {
                    lemma_escaped_first(f0.subrange(m as int, f0.len() as int));
                    assert(f0.subrange(m as int, f0.len() as int).drop_first() =~= f0.subrange(m as int + 1, f0.len() as int));
                    let x = f0[m as int];
                    lemma_esc_shape(x);
                    assert(u =~= esc(x) + (escaped(f0.subrange(m as int + 1, f0.len() as int)) + (seq!['"'] + w0.1)));
                    assert forall|j: int| 0 <= j < esc(x).len() implies t[k + j] == #[trigger] esc(x)[j] by {
                        assert(u[j] == t[k + j]);
                    }
                    assert(u.len() > esc(x).len());
                    assert(k + esc(x).len() < n);
                } else {
                    assert(f0.subrange(m as int, f0.len() as int) =~= Seq::<char>::empty());
                    assert(u.len() >= 1);
                    assert(k < n);
                    assert(u[0] == t[k as int]);
                }
            }
        }
        if k >= n {
            return None;
        }
        let c: char = s.get_char(k);
        if c == '"' {
            proof {
                if fit {
                    assert(out@ =~= f0);
                }
                let rest1 = t.subrange(k + 1, t.len() as int);
                assert(t.subrange(i as int, t.len() as int) =~= escaped(out@) + (seq!['"'] + rest1));
                assert forall|f: Seq<char>, rest: Seq<char>|
                    #![trigger quoted_text(f, rest)]
                    t.subrange(i as int, t.len() as int) == quoted_text(f, rest) implies out@
                        == f && k == t.len() - rest.len() - 1 by {
                    lemma_escaped_unique(out@, rest1, f, rest);
                }
            }
            return Some((out, k));
        }
        let (x, step) = match read_escaped_char(s, k) {
            Some(p) => p,
            None => {
                proof {
                    if fit && m < f0.len() {
                        let y = f0[m as int];
                        assert(t.subrange(k as int, k + esc(y).len()) =~= esc(y));
                    }
                }
                return None;
            },
        };
        push_char(&mut out, x);
        proof {
            let x = out@.last();
            assert(out@ == before.push(x));
            assert(t.subrange(k as int, k + step) =~= esc(x));
            lemma_escaped_push(before, x);
            assert(t.subrange(i as int, k + step) =~= t.subrange(i as int, k as int) + t.subrange(k as int, k + step));
            if fit {
                let y = f0[m as int];
                assert(t.subrange(k as int, t.len() as int).subrange(0, esc(y).len() as int) =~= esc(y));
                assert(t.subrange(k as int, t.len() as int).subrange(0, esc(x).len() as int) =~= esc(x));
                lemma_esc_prefix(x, y, t.subrange(k as int, t.len() as int));
                assert(out@ =~= f0.subrange(0, out@.len() as int));
            }
        }
        k = k + step;
    }
}

} // verus!
