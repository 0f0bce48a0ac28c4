//! Decimal numerals, as the token payload writes its times.
use vstd::prelude::*;
use vstd::string::*;

verus! {

/// The numeral character of the digit `d` (`d < 10`).
pub open spec fn digit_char(d: nat) -> char {
    ((d + 48) as u8) as char
}

pub open spec fn is_digit(c: char) -> bool {
    '0' <= c && c <= '9'
}

pub open spec fn digit_value(c: char) -> nat {
    ((c as u32) - 48) as nat
}

/// The shortest decimal numeral of `n`.
pub open spec fn decimal(n: nat) -> Seq<char>
    decreases n,
{
    if n < 10 {
        seq![digit_char(n)]
    } else {
        decimal(n / 10).push(digit_char(n % 10))
    }
}

/// The number that a run of digits denotes.
pub open spec fn numeral_value(s: Seq<char>) -> nat
    decreases s.len(),
{
    if s.len() == 0 {
        0
    } else {
        numeral_value(s.drop_last()) * 10 + digit_value(s.last())
    }
}

pub open spec fn all_digits(s: Seq<char>) -> bool {
    forall|i: int| 0 <= i < s.len() ==> #[trigger] is_digit(s[i])
}

/// A numeral without superfluous leading zeros.
pub open spec fn canonical_numeral(s: Seq<char>) -> bool {
    &&& s.len() >= 1
    &&& all_digits(s)
    &&& (s.len() > 1 ==> s[0] != '0')
}

proof fn lemma_digit_char(d: nat)
    requires
        d < 10,
    ensures
        is_digit(digit_char(d)),
        digit_value(digit_char(d)) == d,
        (d == 0) == (digit_char(d) == '0'),
{
}

pub proof fn lemma_decimal(n: nat)
    ensures
        canonical_numeral(decimal(n)),
        numeral_value(decimal(n)) == n,
        n >= 1 ==> decimal(n)[0] != '0',
    decreases n,
{
    if n < 10 {
        lemma_digit_char(n);
        let s = decimal(n);
        assert(s.drop_last() =~= Seq::<char>::empty());
        assert(numeral_value(s.drop_last()) == 0);
        assert(all_digits(s));
    } else {
        lemma_decimal(n / 10);
        lemma_digit_char(n % 10);
        let s = decimal(n);
        assert(s.drop_last() =~= decimal(n / 10));
        assert(s[0] == decimal(n / 10)[0]);
        assert(numeral_value(s) == numeral_value(decimal(n / 10)) * 10 + n % 10);
        assert(n == (n / 10) * 10 + n % 10) by (nonlinear_arith);
        assert(all_digits(s)) by {
            assert forall|i: int| 0 <= i < s.len() implies #[trigger] is_digit(s[i]) by {
                if i < s.len() - 1 {
                    assert(s[i] == decimal(n / 10)[i]);
                }
            }
        }
    }
}

/// A canonical numeral is the decimal form of the number it denotes.
pub proof fn lemma_canonical_is_decimal(s: Seq<char>)
    requires
        canonical_numeral(s),
    ensures
        decimal(numeral_value(s)) == s,
        s[0] != '0' ==> numeral_value(s) >= 1,
    decreases s.len(),
{
    let c = s.last();
    assert(is_digit(c));
    let d = digit_value(c);
    if s.len() == 1 {
        assert(s.drop_last() =~= Seq::<char>::empty());
        assert(numeral_value(s.drop_last()) == 0);
        assert(numeral_value(s) == d);
        assert(digit_char(d) == c);
        assert(decimal(d) =~= s);
    } else {
        let p = s.drop_last();
        assert(p[0] == s[0]);
        assert(all_digits(p)) by {
            assert forall|i: int| 0 <= i < p.len() implies #[trigger] is_digit(p[i]) by {
                assert(p[i] == s[i]);
            }
        }
        lemma_canonical_is_decimal(p);
        let v = numeral_value(p);
        assert(v >= 1);
        let n = v * 10 + d;
        assert(n / 10 == v && n % 10 == d) by (nonlinear_arith)
            requires
                n == v * 10 + d,
                d < 10,
        ;
        assert(digit_char(d) == c);
        assert(decimal(n) =~= s);
    }
}

/// Relies on String::push: the character is appended at the end.
#[verifier::external_body]
pub(crate) fn push_char(s: &mut String, c: char)
    ensures
        final(s)@ == old(s)@.push(c),
{
    s.push(c)
}

/// Appends the decimal numeral of `n`.
pub fn push_decimal(out: &mut String, n: u64)
    ensures
        final(out)@ == old(out)@ + decimal(n as nat),
    decreases n,
{
    if n >= 10 {
        push_decimal(out, n / 10);
    }
    let d: u8 = (n % 10) as u8;
    let c: char = (d + 48) as char;
    push_char(out, c);
    proof {
        let s = decimal(n as nat);
        if n >= 10 {
            assert(s == decimal((n / 10) as nat).push(digit_char((n % 10) as nat)));
        } else {
            assert(n % 10 == n);
        }
        assert(final(out)@ =~= old(out)@ + s);
    }
}

pub fn char_is_digit(c: char) -> (r: bool)
    ensures
        r == is_digit(c),
{
    '0' <= c && c <= '9'
}

/// Whether `j` ends the run of digits that starts at `i`.
pub open spec fn run_ends_at(s: Seq<char>, i: int, j: int) -> bool {
    &&& i <= j <= s.len()
    &&& all_digits(s.subrange(i, j))
    &&& (j == s.len() || !is_digit(s[j]))
}

/// Reads the run of digits that starts at `i`: its value and where it ends.
/// The run must be a canonical numeral whose value fits in a `u64`.
pub fn scan_number(s: &str, i: usize) -> (r: Option<(u64, usize)>)
    requires
        i <= s@.len(),
    ensures
        match r {
            Some((v, j)) => {
                &&& run_ends_at(s@, i as int, j as int)
                &&& canonical_numeral(s@.subrange(i as int, j as int))
                &&& numeral_value(s@.subrange(i as int, j as int)) == v
            },
            None => forall|j: int|
                #![trigger run_ends_at(s@, i as int, j)]
                run_ends_at(s@, i as int, j) ==> !(canonical_numeral(s@.subrange(i as int, j))
                    && numeral_value(s@.subrange(i as int, j)) <= u64::MAX),
        },
{
    let n: usize = s.unicode_len();
    let mut j: usize = i;
    let mut acc: u64 = 0;
    let mut over: bool = false;
    while j < n && char_is_digit(s.get_char(j))
        invariant
            n == s@.len(),
            i <= j <= n,
            all_digits(s@.subrange(i as int, j as int)),
            !over ==> acc == numeral_value(s@.subrange(i as int, j as int)),
            over ==> numeral_value(s@.subrange(i as int, j as int)) > u64::MAX,
        decreases n - j,
    {
        let c: char = s.get_char(j);
        let d: u64 = ((c as u32) - 48) as u64;
        let ghost prev = s@.subrange(i as int, j as int);
        let ghost next = s@.subrange(i as int, j + 1);
        assert(next.drop_last() =~= prev);
        assert(next.last() == c);
        assert(all_digits(next)) by {
            assert forall|k: int| 0 <= k < next.len() implies #[trigger] is_digit(next[k]) by {
                if k < prev.len() {
                    assert(next[k] == prev[k]);
                }
            }
        }
        if !over {
            if acc > (u64::MAX - d) / 10 {
                over = true;
                assert(acc * 10 + d > u64::MAX) by (nonlinear_arith)
                    requires
                        acc > (u64::MAX - d) / 10,
                        d <= 9,
                ;
            } else {
                assert(acc * 10 + d <= u64::MAX) by (nonlinear_arith)
                    requires
                        acc <= (u64::MAX - d) / 10,
                        d <= 9,
                ;
                acc = acc * 10 + d;
            }
        }
        j = j + 1;
    }
    proof {
        assert(run_ends_at(s@, i as int, j as int));
        assert forall|k: int| #![trigger run_ends_at(s@, i as int, k)]
            run_ends_at(s@, i as int, k) implies k == j by {
            if k < j {
                assert(s@.subrange(i as int, j as int)[k - i] == s@[k]);
            } else if k > j {
                assert(s@.subrange(i as int, k)[j - i] == s@[j as int]);
            }
        }
    }
    if over || j == i {
        return None;
    }
    if j - i > 1 && s.get_char(i) == '0' {
        assert(s@.subrange(i as int, j as int)[0] == s@[i as int]);
        return None;
    }
    assert(j - i > 1 ==> s@.subrange(i as int, j as int)[0] == s@[i as int]);
    Some((acc, j))
}

} // verus!
