//! Tokenisation and numeric-literal parsing.
//!
//! An expression string is split on single ASCII spaces into tokens.  A
//! token is a numeric literal exactly when it matches
//! `['+'|'-'] digit+ ['.' digit*]`; the fractional part is truncated to the
//! fifteen digits the decimal type can hold, and an integer part too large
//! for the magnitude makes the token non-numeric.  The validator and the
//! evaluator both classify tokens through the very same predicate, so the
//! two can never disagree about a token's kind.

use vstd::prelude::*;

use crate::decimal::Dec;
use crate::decimal::SCALE;

verus! {

/// Number of fractional digits a [`Dec`] can hold.
pub const FRAC_DIGITS: usize = 15;

/// Whether `c` is an ASCII decimal digit.
pub open spec fn is_digit(c: char) -> bool {
    48 <= (c as u32) && (c as u32) <= 57
}

/// The numeric value of an ASCII decimal digit.
pub open spec fn digit_val(c: char) -> int {
    (c as u32) - 48
}

/// Whether every character of `s` is an ASCII decimal digit.
pub open spec fn all_digits(s: Seq<char>) -> bool {
    forall|i: int| 0 <= i < s.len() ==> is_digit(#[trigger] s[i])
}

/// The value of a digit string read most-significant first.
pub open spec fn digits_val(s: Seq<char>) -> int
    decreases s.len(),
{
    if s.len() == 0 {
        0
    } else {
        digits_val(s.drop_last()) * 10 + digit_val(s.last())
    }
}

/// Ten to the `k`.
pub open spec fn pow10(k: nat) -> int
    decreases k,
{
    if k == 0 {
        1
    } else {
        10 * pow10((k - 1) as nat)
    }
}

/// The index of the first occurrence of `c` in `s` (the length of `s` when
/// `c` does not occur).
pub open spec fn first_occurrence(s: Seq<char>, c: char) -> nat
    decreases s.len(),
{
    if s.len() == 0 {
        0
    } else if s[0] == c {
        0
    } else {
        1 + first_occurrence(s.subrange(1, s.len() as int), c)
    }
}

pub proof fn lemma_first_occurrence_props(s: Seq<char>, c: char)
    ensures
        first_occurrence(s, c) <= s.len(),
        first_occurrence(s, c) < s.len() ==> s[first_occurrence(s, c) as int] == c,
        forall|j: int| 0 <= j < first_occurrence(s, c) ==> s[j] != c,
    decreases s.len(),
{
    if s.len() > 0 && s[0] != c {
        lemma_first_occurrence_props(s.subrange(1, s.len() as int), c);
        assert forall|j: int| 0 <= j < first_occurrence(s, c) implies s[j] != c by {
            if j > 0 {
                assert(s.subrange(1, s.len() as int)[j - 1] == s[j]);
            }
        }
    }
}

pub proof fn lemma_first_occurrence_at(s: Seq<char>, c: char, k: int)
    requires
        0 <= k <= s.len(),
        forall|j: int| 0 <= j < k ==> s[j] != c,
        k < s.len() ==> s[k] == c,
    ensures
        first_occurrence(s, c) == k,
    decreases s.len(),
{
    if s.len() > 0 && s[0] != c {
        lemma_first_occurrence_at(s.subrange(1, s.len() as int), c, k - 1);
    }
}

/// The tokens of `s`, split on every single space character.
pub open spec fn split_spec(s: Seq<char>) -> Seq<Seq<char>>
    decreases s.len(),
{
    let i = first_occurrence(s, ' ') as int;
    if i >= s.len() {
        seq![s]
    } else {
        seq![s.subrange(0, i)] + split_spec(s.subrange(i + 1, s.len() as int))
    }
}

/// The tokens joined back with single spaces.
pub open spec fn join_spec(ts: Seq<Seq<char>>) -> Seq<char>
    decreases ts.len(),
{
    if ts.len() == 0 {
        Seq::empty()
    } else if ts.len() == 1 {
        ts[0]
    } else {
        join_spec(ts.drop_last()) + seq![' '] + ts.last()
    }
}

pub proof fn lemma_split_nonempty(s: Seq<char>)
    ensures
        split_spec(s).len() >= 1,
{
}

pub proof fn lemma_join_prepend(t: Seq<char>, ts: Seq<Seq<char>>)
    requires
        ts.len() >= 1,
    ensures
        join_spec(seq![t] + ts) == t + seq![' '] + join_spec(ts),
    decreases ts.len(),
{
    let w = seq![t] + ts;
    if ts.len() == 1 {
        assert(w.len() == 2);
        assert(w.drop_last() =~= seq![t]);
        assert(w.last() == ts[0]);
        assert(join_spec(seq![t]) == t);
        assert(join_spec(ts) == ts[0]);
    } else {
        assert(w.drop_last() =~= seq![t] + ts.drop_last());
        lemma_join_prepend(t, ts.drop_last());
        assert(w.last() == ts.last());
        assert((t + seq![' '] + join_spec(ts.drop_last())) + seq![' '] + ts.last() =~= t + seq![
            ' ',
        ] + (join_spec(ts.drop_last()) + seq![' '] + ts.last()));
    }
}

/// Law: joining the tokens of a split recovers the original string.
pub proof fn lemma_join_split(s: Seq<char>)
    ensures
        join_spec(split_spec(s)) == s,
    decreases s.len(),
{
    lemma_first_occurrence_props(s, ' ');
    let i = first_occurrence(s, ' ') as int;
    if i >= s.len() {
        assert(split_spec(s) == seq![s]);
        assert(join_spec(seq![s]) == s);
    } else {
        let pre = s.subrange(0, i);
        let suf = s.subrange(i + 1, s.len() as int);
        lemma_join_split(suf);
        lemma_split_nonempty(suf);
        lemma_join_prepend(pre, split_spec(suf));
        assert(pre + seq![' '] + suf =~= s);
    }
}

/// No token produced by the splitter contains a space.
pub proof fn lemma_split_tokens_space_free(s: Seq<char>)
    ensures
        forall|j: int, k: int|
            0 <= j < split_spec(s).len() && 0 <= k < split_spec(s)[j].len() ==> #[trigger] split_spec(
                s,
            )[j][k] != ' ',
    decreases s.len(),
{
    lemma_first_occurrence_props(s, ' ');
    let i = first_occurrence(s, ' ') as int;
    if i >= s.len() {
        assert forall|j: int, k: int|
            0 <= j < split_spec(s).len() && 0 <= k < split_spec(s)[j].len() implies #[trigger] split_spec(
            s,
        )[j][k] != ' ' by {
            assert(split_spec(s)[j] == s);
        }
    } else {
        let pre = s.subrange(0, i);
        let suf = s.subrange(i + 1, s.len() as int);
        lemma_split_tokens_space_free(suf);
        assert forall|j: int, k: int|
            0 <= j < split_spec(s).len() && 0 <= k < split_spec(s)[j].len() implies #[trigger] split_spec(
            s,
        )[j][k] != ' ' by {
            if j == 0 {
                assert(split_spec(s)[0] == pre);
                assert(pre[k] == s[k]);
            } else {
                assert(split_spec(s)[j] == split_spec(suf)[j - 1]);
                assert(split_spec(suf)[j - 1][k] != ' ');
            }
        }
    }
}

/// Splitting the join of space-free tokens recovers exactly those tokens.
pub proof fn lemma_split_join_inverse(ts: Seq<Seq<char>>)
    requires
        ts.len() >= 1,
        forall|j: int, k: int| 0 <= j < ts.len() && 0 <= k < ts[j].len() ==> #[trigger] ts[j][k]
            != ' ',
    ensures
        split_spec(join_spec(ts)) == ts,
    decreases ts.len(),
{
    if ts.len() == 1 {
        let t = ts[0];
        lemma_first_occurrence_at(t, ' ', t.len() as int);
        assert(split_spec(t) =~= seq![t]);
        assert(seq![t] =~= ts);
    } else {
        let rest = ts.drop_first();
        assert(ts =~= seq![ts[0]] + rest);
        lemma_join_prepend(ts[0], rest);
        let w = join_spec(ts);
        assert(w == ts[0] + seq![' '] + join_spec(rest));
        let i = ts[0].len() as int;
        assert(w[i] == ' ');
        assert forall|j: int| 0 <= j < i implies w[j] != ' ' by {
            assert(w[j] == ts[0][j]);
        }
        lemma_first_occurrence_at(w, ' ', i);
        assert(w.subrange(0, i) =~= ts[0]);
        assert(w.subrange(i + 1, w.len() as int) =~= join_spec(rest));
        assert forall|j: int, k: int|
            0 <= j < rest.len() && 0 <= k < rest[j].len() implies #[trigger] rest[j][k] != ' ' by {
            assert(rest[j] == ts[j + 1]);
            assert(ts[j + 1][k] != ' ');
        }
        lemma_split_join_inverse(rest);
        assert(split_spec(w) == seq![ts[0]] + split_spec(join_spec(rest)));
        assert(seq![ts[0]] + rest =~= ts);
    }
}

pub proof fn lemma_digits_val_bounds(s: Seq<char>)
    requires
        all_digits(s),
    ensures
        0 <= digits_val(s) < pow10(s.len()),
    decreases s.len(),
{
    if s.len() > 0 {
        assert(all_digits(s.drop_last()));
        lemma_digits_val_bounds(s.drop_last());
    }
}

pub proof fn lemma_pow10_pos(k: nat)
    ensures
        pow10(k) >= 1,
    decreases k,
{
    if k > 0 {
        lemma_pow10_pos((k - 1) as nat);
    }
}

pub proof fn lemma_pow10_add(a: nat, b: nat)
    ensures
        pow10(a) * pow10(b) == pow10(a + b),
    decreases a,
{
    if a == 0 {
        assert(1 * pow10(b) == pow10(b)) by (nonlinear_arith);
    } else {
        lemma_pow10_add((a - 1) as nat, b);
        let p1 = pow10((a - 1) as nat);
        let pb = pow10(b);
        assert((10 * p1) * pb == 10 * (p1 * pb)) by (nonlinear_arith);
        assert(pow10((a + b - 1) as nat) == p1 * pb);
    }
}

/// `SCALE` is ten to the number of fractional digits.
pub proof fn lemma_scale_pow10()
    ensures
        pow10(FRAC_DIGITS as nat) == SCALE,
{
    reveal_with_fuel(pow10, 16);
}

/// The fractional part of a literal as a magnitude in units of `10^-15`:
/// the first fifteen fractional digits, right-padded with zeros.
pub open spec fn frac_val(fp: Seq<char>) -> int {
    if fp.len() >= FRAC_DIGITS {
        digits_val(fp.take(FRAC_DIGITS as int))
    } else {
        digits_val(fp) * pow10((FRAC_DIGITS - fp.len()) as nat)
    }
}

pub proof fn lemma_frac_val_bounds(fp: Seq<char>)
    requires
        all_digits(fp),
    ensures
        0 <= frac_val(fp) < SCALE,
{
    lemma_scale_pow10();
    if fp.len() >= FRAC_DIGITS {
        assert(all_digits(fp.take(FRAC_DIGITS as int)));
        lemma_digits_val_bounds(fp.take(FRAC_DIGITS as int));
    } else {
        lemma_digits_val_bounds(fp);
        let d = digits_val(fp);
        let k = fp.len();
        let p = pow10(((FRAC_DIGITS - k) as nat));
        lemma_pow10_pos(((FRAC_DIGITS - k) as nat));
        lemma_pow10_add(k, ((FRAC_DIGITS - k) as nat));
        assert(0 <= d * p) by (nonlinear_arith)
            requires
                d >= 0,
                p >= 1,
        ;
        assert(d * p <= (pow10(k) - 1) * p) by (nonlinear_arith)
            requires
                d <= pow10(k) - 1,
                p >= 1,
        ;
        assert((pow10(k) - 1) * p == pow10(k) * p - p) by (nonlinear_arith);
    }
}

/// The unsigned part of a numeric literal: at least one integer digit, an
/// optional dot, fractional digits truncated to fifteen; `None` when the
/// shape is wrong or the magnitude does not fit.
pub open spec fn parse_unsigned_spec(u: Seq<char>) -> Option<u128> {
    let d = first_occurrence(u, '.') as int;
    let ip = u.subrange(0, d);
    let fp = if d < u.len() {
        u.subrange(d + 1, u.len() as int)
    } else {
        Seq::empty()
    };
    if ip.len() >= 1 && all_digits(ip) && all_digits(fp) {
        let v = digits_val(ip) * (SCALE as int) + frac_val(fp);
        if v <= u128::MAX {
            Some(v as u128)
        } else {
            None
        }
    } else {
        None
    }
}

/// A numeric literal: an optional single leading sign before the unsigned
/// part.  The result is canonical — a negative zero parses to plain zero.
pub open spec fn parse_spec(t: Seq<char>) -> Option<Dec> {
    if t.len() == 0 {
        None
    } else {
        let neg = t[0] == '-';
        let u = if t[0] == '-' || t[0] == '+' {
            t.subrange(1, t.len() as int)
        } else {
            t
        };
        match parse_unsigned_spec(u) {
            Some(mag) => Some(
                if neg && mag != 0 {
                    Dec { neg: true, mag }
                } else {
                    Dec { neg: false, mag }
                },
            ),
            None => None,
        }
    }
}

proof fn lemma_pow10_mono(a: nat, b: nat)
    requires
        a <= b,
    ensures
        pow10(a) <= pow10(b),
{
    lemma_pow10_add(a, (b - a) as nat);
    lemma_pow10_pos(a);
    lemma_pow10_pos((b - a) as nat);
    let x = pow10(a);
    let y = pow10((b - a) as nat);
    assert(x * y >= x * 1) by (nonlinear_arith)
        requires
            x >= 1,
            y >= 1,
    ;
}

/// Parse a token as a numeric literal; see [`parse_spec`].
#[verifier::loop_isolation(false)]
#[verifier::rlimit(100)]
pub fn parse_decimal(t: &str) -> (r: Option<Dec>)
    ensures
        r == parse_spec(t@),
        (r matches Some(d) ==> d.wf()),
{
    let n = t.unicode_len();
    if n == 0 {
        return None;
    }
    let c0 = t.get_char(0);
    let neg = c0 == '-';
    let signed = c0 == '-' || c0 == '+';
    let start: usize = if signed {
        1
    } else {
        0
    };
    let ghost u: Seq<char> = if signed {
        t@.subrange(1, t@.len() as int)
    } else {
        t@
    };
    proof {
        assert(u.len() == n - start);
        assert forall|j: int| 0 <= j < u.len() implies u[j] == t@[j + start] by {}
    }
    let mut dot: usize = start;
    while dot < n && t.get_char(dot) != '.'
        invariant
            start <= dot <= n,
            forall|j: int| start <= j < dot ==> t@[j] != '.',
        decreases n - dot,
    {
        dot = dot + 1;
    }
    proof {
        lemma_first_occurrence_at(u, '.', dot - start);
    }
    let ghost d0 = (dot - start) as int;
    let ghost ip = u.subrange(0, d0);
    let ghost fp = if d0 < u.len() {
        u.subrange(d0 + 1, u.len() as int)
    } else {
        Seq::empty()
    };
    if dot == start {
        return None;
    }
    proof {
        assert forall|j: int| 0 <= j < ip.len() implies ip[j] == t@[j + start] by {}
    }
    let mut acc: u128 = 0;
    let mut over = false;
    let mut i = start;
    while i < dot
        invariant
            start <= i <= dot,
            all_digits(ip.take(i - start)),
            !over ==> acc == digits_val(ip.take(i - start)),
            over ==> digits_val(ip.take(i - start)) > u128::MAX,
        decreases dot - i,
    {
        let c = t.get_char(i);
        let cv = c as u32;
        if cv < 48 || cv > 57 {
            proof {
                assert(ip[i - start] == c);
                assert(!all_digits(ip));
            }
            return None;
        }
        let d = (cv - 48) as u128;
        let ghost k = i - start;
        proof {
            assert(ip.take(k + 1).drop_last() =~= ip.take(k as int));
            assert(ip.take(k + 1).last() == ip[k as int]);
            assert(ip[k as int] == c);
            assert(digits_val(ip.take(k + 1)) == digits_val(ip.take(k as int)) * 10 + digit_val(
                c,
            ));
            assert forall|j: int| 0 <= j < k + 1 implies is_digit(#[trigger] ip.take(k + 1)[j]) by {
                if j < k {
                    assert(ip.take(k + 1)[j] == ip.take(k as int)[j]);
                } else {
                    assert(ip.take(k + 1)[j] == c);
                }
            }
        }
        if !over {
            let a10 = match acc.checked_mul(10) {
                Some(v) => v,
                None => {
                    over = true;
                    i = i + 1;
                    continue ;
                },
            };
            match a10.checked_add(d) {
                Some(v) => {
                    acc = v;
                },
                None => {
                    over = true;
                },
            }
        }
        i = i + 1;
    }
    proof {
        assert(ip.take(d0) =~= ip);
    }
    let flen: usize = if dot < n {
        n - dot - 1
    } else {
        0
    };
    proof {
        assert(fp.len() == flen);
        assert forall|j: int| 0 <= j < fp.len() implies fp[j] == t@[dot + 1 + j] by {}
    }
    let mut fv: u128 = 0;
    let mut j: usize = 0;
    while j < flen
        invariant
            j <= flen,
            all_digits(fp.take(j as int)),
            fv == digits_val(
                fp.take(
                    if j <= FRAC_DIGITS {
                        j as int
                    } else {
                        FRAC_DIGITS as int
                    },
                ),
            ),
            fv < pow10(
                (if j <= FRAC_DIGITS {
                    j
                } else {
                    FRAC_DIGITS
                }) as nat,
            ),
        decreases flen - j,
    {
        let c = t.get_char(dot + 1 + j);
        let cv = c as u32;
        if cv < 48 || cv > 57 {
            proof {
                assert(fp[j as int] == c);
                assert(!all_digits(fp));
            }
            return None;
        }
        proof {
            assert(fp.take(j + 1).drop_last() =~= fp.take(j as int));
            assert(fp.take(j + 1).last() == fp[j as int]);
            assert(fp[j as int] == c);
            assert forall|jj: int| 0 <= jj < j + 1 implies is_digit(#[trigger] fp.take(j + 1)[jj]) by {
                if jj < j {
                    assert(fp.take(j + 1)[jj] == fp.take(j as int)[jj]);
                } else {
                    assert(fp.take(j + 1)[jj] == c);
                }
            }
        }
        if j < FRAC_DIGITS {
            proof {
                lemma_pow10_mono((j + 1) as nat, FRAC_DIGITS as nat);
                lemma_scale_pow10();
                assert(fv * 10 + (cv - 48) < pow10((j + 1) as nat));
            }
            fv = fv * 10 + ((cv - 48) as u128);
        } else {
            proof {
                assert(fp.take(FRAC_DIGITS as int) =~= fp.take(j + 1).take(FRAC_DIGITS as int));
                assert(fp.take(j + 1).take(FRAC_DIGITS as int) =~= fp.take(FRAC_DIGITS as int));
            }
        }
        j = j + 1;
    }
    proof {
        assert(fp.take(flen as int) =~= fp);
    }
    if flen < FRAC_DIGITS {
        let pad: usize = FRAC_DIGITS - flen;
        let ghost base_fv = fv as int;
        let mut p: usize = 0;
        while p < pad
            invariant
                p <= pad,
                pad == FRAC_DIGITS - flen,
                flen < FRAC_DIGITS,
                base_fv == digits_val(fp),
                fv as int == base_fv * pow10(p as nat),
                fv < pow10((flen + p) as nat),
            decreases pad - p,
        {
            proof {
                lemma_pow10_mono((flen + p + 1) as nat, FRAC_DIGITS as nat);
                lemma_scale_pow10();
                let q = pow10(p as nat);
                assert(base_fv * (10 * q) == (base_fv * q) * 10) by (nonlinear_arith);
            }
            fv = fv * 10;
            p = p + 1;
        }
        proof {
            assert(fv as int == frac_val(fp));
        }
    } else {
        proof {
            assert(fv as int == frac_val(fp));
        }
    }
    let ghost dvip = digits_val(ip);
    proof {
        lemma_digits_val_bounds(ip);
        lemma_frac_val_bounds(fp);
        assert(dvip * SCALE >= dvip) by (nonlinear_arith)
            requires
                dvip >= 0,
                SCALE >= 1,
        ;
    }
    if over {
        return None;
    }
    let scaled = match acc.checked_mul(SCALE) {
        Some(v) => v,
        None => {
            return None;
        },
    };
    let mag = match scaled.checked_add(fv) {
        Some(v) => v,
        None => {
            return None;
        },
    };
    Some(Dec { neg: neg && mag != 0, mag })
}

/// The character for a single decimal digit value.
pub open spec fn digit_char(d: int) -> char {
    if d == 0 {
        '0'
    } else if d == 1 {
        '1'
    } else if d == 2 {
        '2'
    } else if d == 3 {
        '3'
    } else if d == 4 {
        '4'
    } else if d == 5 {
        '5'
    } else if d == 6 {
        '6'
    } else if d == 7 {
        '7'
    } else if d == 8 {
        '8'
    } else {
        '9'
    }
}

proof fn lemma_digit_char(d: int)
    requires
        0 <= d <= 9,
    ensures
        is_digit(digit_char(d)),
        digit_val(digit_char(d)) == d,
{
}

/// The digits of the nonnegative integer `v`, most significant first.
pub open spec fn dec_digits(v: int) -> Seq<char>
    decreases v,
{
    if v < 10 {
        seq![digit_char(v)]
    } else {
        dec_digits(v / 10).push(digit_char(v % 10))
    }
}

proof fn lemma_dec_digits(v: int)
    requires
        v >= 0,
    ensures
        all_digits(dec_digits(v)),
        digits_val(dec_digits(v)) == v,
        dec_digits(v).len() >= 1,
    decreases v,
{
    if v < 10 {
        lemma_digit_char(v);
        assert(dec_digits(v).drop_last() =~= Seq::<char>::empty());
        assert(digits_val(Seq::<char>::empty()) == 0);
        assert(dec_digits(v).last() == digit_char(v));
        assert(digits_val(dec_digits(v)) == digits_val(dec_digits(v).drop_last()) * 10 + digit_val(
            dec_digits(v).last(),
        ));
    } else {
        lemma_dec_digits(v / 10);
        lemma_digit_char(v % 10);
        let s = dec_digits(v / 10);
        let w = s.push(digit_char(v % 10));
        assert(w.drop_last() =~= s);
        assert(digits_val(w) == digits_val(s) * 10 + digit_val(digit_char(v % 10)));
        assert((v / 10) * 10 + v % 10 == v);
        assert forall|j: int| 0 <= j < w.len() implies is_digit(#[trigger] w[j]) by {
            if j < s.len() {
                assert(w[j] == s[j]);
            } else {
                assert(w[j] == digit_char(v % 10));
            }
        }
    }
}

/// Exactly `k` digits of `v` modulo `10^k`, most significant first.
pub open spec fn frac_digits(v: int, k: nat) -> Seq<char>
    decreases k,
{
    if k == 0 {
        Seq::empty()
    } else {
        frac_digits(v / 10, (k - 1) as nat).push(digit_char(v % 10))
    }
}

proof fn lemma_frac_digits(v: int, k: nat)
    requires
        0 <= v < pow10(k),
    ensures
        all_digits(frac_digits(v, k)),
        frac_digits(v, k).len() == k,
        digits_val(frac_digits(v, k)) == v,
    decreases k,
{
    if k > 0 {
        assert(pow10(k) == 10 * pow10((k - 1) as nat));
        assert(v / 10 < pow10((k - 1) as nat));
        lemma_frac_digits(v / 10, (k - 1) as nat);
        lemma_digit_char(v % 10);
        let s = frac_digits(v / 10, (k - 1) as nat);
        let w = s.push(digit_char(v % 10));
        assert(w.drop_last() =~= s);
        assert(digits_val(w) == digits_val(s) * 10 + digit_val(digit_char(v % 10)));
        assert((v / 10) * 10 + v % 10 == v);
        assert forall|j: int| 0 <= j < w.len() implies is_digit(#[trigger] w[j]) by {
            if j < s.len() {
                assert(w[j] == s[j]);
            } else {
                assert(w[j] == digit_char(v % 10));
            }
        }
    }
}

fn push_digit(out: &mut String, d: u128)
    requires
        d < 10,
    ensures
        final (out)@ == old(out)@ + seq![digit_char(d as int)],
{
    if d == 0 {
        out.append("0");
        proof {
            reveal_strlit("0");
            assert("0"@ =~= seq!['0']);
        }
    } else if d == 1 {
        out.append("1");
        proof {
            reveal_strlit("1");
            assert("1"@ =~= seq!['1']);
        }
    } else if d == 2 {
        out.append("2");
        proof {
            reveal_strlit("2");
            assert("2"@ =~= seq!['2']);
        }
    } else if d == 3 {
        out.append("3");
        proof {
            reveal_strlit("3");
            assert("3"@ =~= seq!['3']);
        }
    } else if d == 4 {
        out.append("4");
        proof {
            reveal_strlit("4");
            assert("4"@ =~= seq!['4']);
        }
    } else if d == 5 {
        out.append("5");
        proof {
            reveal_strlit("5");
            assert("5"@ =~= seq!['5']);
        }
    } else if d == 6 {
        out.append("6");
        proof {
            reveal_strlit("6");
            assert("6"@ =~= seq!['6']);
        }
    } else if d == 7 {
        out.append("7");
        proof {
            reveal_strlit("7");
            assert("7"@ =~= seq!['7']);
        }
    } else if d == 8 {
        out.append("8");
        proof {
            reveal_strlit("8");
            assert("8"@ =~= seq!['8']);
        }
    } else {
        out.append("9");
        proof {
            reveal_strlit("9");
            assert("9"@ =~= seq!['9']);
        }
    }
}

fn append_int_digits(out: &mut String, v: u128)
    ensures
        final (out)@ == old(out)@ + dec_digits(v as int),
    decreases v,
{
    if v < 10 {
        push_digit(out, v);
    } else {
        append_int_digits(out, v / 10);
        push_digit(out, v % 10);
        proof {
            assert((old(out)@ + dec_digits((v / 10) as int)) + seq![
                digit_char((v % 10) as int),
            ] =~= old(out)@ + dec_digits(v as int));
        }
    }
}

fn append_frac_digits(out: &mut String, v: u128, k: usize)
    ensures
        final (out)@ == old(out)@ + frac_digits(v as int, k as nat),
    decreases k,
{
    if k > 0 {
        append_frac_digits(out, v / 10, k - 1);
        push_digit(out, v % 10);
        proof {
            assert((old(out)@ + frac_digits((v / 10) as int, (k - 1) as nat)) + seq![
                digit_char((v % 10) as int),
            ] =~= old(out)@ + frac_digits(v as int, k as nat));
        }
    } else {
        proof {
            assert(old(out)@ + frac_digits(v as int, 0) =~= old(out)@);
        }
    }
}

/// The rendering of a decimal value: an optional minus sign, the integer
/// digits, a dot, and exactly fifteen fractional digits.
pub open spec fn render_spec(d: Dec) -> Seq<char> {
    (if d.neg {
        seq!['-']
    } else {
        Seq::<char>::empty()
    }) + dec_digits((d.mag / SCALE) as int) + seq!['.'] + frac_digits(
        (d.mag % SCALE) as int,
        FRAC_DIGITS as nat,
    )
}

/// Render a decimal value; see [`render_spec`].  A canonical value parses
/// back from its rendering unchanged.
#[verifier::rlimit(100)]
pub fn to_decimal_string(d: &Dec) -> (r: String)
    ensures
        r@ == render_spec(*d),
        d.wf() ==> parse_spec(r@) == Some(*d),
{
    let mut out = String::new();
    if d.neg {
        out.append("-");
    }
    let ip = d.mag / SCALE;
    let fpv = d.mag % SCALE;
    append_int_digits(&mut out, ip);
    out.append(".");
    append_frac_digits(&mut out, fpv, FRAC_DIGITS);
    proof {
        let a = dec_digits(ip as int);
        let b = frac_digits(fpv as int, FRAC_DIGITS as nat);
        reveal_strlit("-");
        reveal_strlit(".");
        assert("-"@ =~= seq!['-']);
        assert("."@ =~= seq!['.']);
        lemma_dec_digits(ip as int);
        lemma_scale_pow10();
        lemma_frac_digits(fpv as int, FRAC_DIGITS as nat);
        vstd::arithmetic::div_mod::lemma_fundamental_div_mod(d.mag as int, SCALE as int);
        assert(out@ =~= render_spec(*d));
        if d.wf() {
            let t = out@;
            let u = if d.neg {
                t.subrange(1, t.len() as int)
            } else {
                t
            };
            if d.neg {
                assert(t =~= seq!['-'] + a + seq!['.'] + b);
            } else {
                assert(t =~= a + seq!['.'] + b);
            }
            assert(u =~= a + seq!['.'] + b);
            assert(u[a.len() as int] == '.');
            assert forall|j: int| 0 <= j < a.len() implies u[j] != '.' by {
                assert(u[j] == a[j]);
                assert(is_digit(a[j]));
            }
            lemma_first_occurrence_at(u, '.', a.len() as int);
            let ipseq = u.subrange(0, a.len() as int);
            let fpseq = u.subrange(a.len() as int + 1, u.len() as int);
            assert(ipseq =~= a);
            assert(fpseq =~= b);
            assert(b.take(FRAC_DIGITS as int) =~= b);
            assert(frac_val(b) == digits_val(b));
            assert(digits_val(a) * (SCALE as int) + frac_val(b) == d.mag);
            if d.neg {
                assert(t[0] == '-');
            } else {
                assert(t[0] == a[0]);
                assert(is_digit(a[0]));
                assert(t[0] != '-');
                assert(t[0] != '+');
            }
            assert(parse_spec(t) == Some(*d));
        }
    }
    out
}

/// The tokens of an expression string, split on single spaces.
pub fn tokenize(s: &str) -> (r: Vec<String>)
    ensures
        r.deep_view() == split_spec(s@),
{
    let n = s.unicode_len();
    let mut toks: Vec<String> = Vec::new();
    let mut pos: usize = 0;
    proof {
        assert(s@.subrange(0, n as int) =~= s@);
        assert(toks.deep_view() =~= Seq::<Seq<char>>::empty());
        assert(Seq::<Seq<char>>::empty() + split_spec(s@) =~= split_spec(s@));
    }
    loop
        invariant_except_break
            n == s@.len(),
            pos <= n,
            split_spec(s@) == toks.deep_view() + split_spec(s@.subrange(pos as int, n as int)),
        ensures
            toks.deep_view() == split_spec(s@),
        decreases n - pos,
    {
        let mut end = pos;
        while end < n && s.get_char(end) != ' '
            invariant
                n == s@.len(),
                pos <= end <= n,
                forall|j: int| pos <= j < end ==> s@[j] != ' ',
            decreases n - end,
        {
            end = end + 1;
        }
        let ghost suffix = s@.subrange(pos as int, n as int);
        let ghost dv0 = toks.deep_view();
        proof {
            assert forall|j: int| 0 <= j < suffix.len() implies suffix[j] == s@[j + pos] by {}
            lemma_first_occurrence_at(suffix, ' ', end - pos);
        }
        let tok = s.substring_char(pos, end);
        toks.push(String::from_str(tok));
        proof {
            assert(toks.deep_view() =~= dv0.push(tok@));
        }
        if end == n {
            proof {
                assert(tok@ =~= suffix);
                assert(split_spec(suffix) == seq![suffix]);
                assert(dv0.push(tok@) =~= dv0 + seq![suffix]);
            }
            break ;
        }
        proof {
            assert(suffix.subrange(0, end - pos) =~= tok@);
            assert(suffix.subrange(end - pos + 1, suffix.len() as int) =~= s@.subrange(
                end + 1,
                n as int,
            ));
            assert(split_spec(suffix) == seq![tok@] + split_spec(
                s@.subrange(end + 1, n as int),
            ));
            assert(dv0 + (seq![tok@] + split_spec(s@.subrange(end + 1, n as int))) =~= (dv0 + seq![
                tok@,
            ]) + split_spec(s@.subrange(end + 1, n as int)));
            assert(dv0.push(tok@) =~= dv0 + seq![tok@]);
        }
        pos = end + 1;
    }
    toks
}

/// Join tokens back into a single-space-separated string.
#[verifier::loop_isolation(false)]
pub fn join_tokens(ts: &Vec<String>) -> (r: String)
    ensures
        r@ == join_spec(ts.deep_view()),
{
    let mut out = String::new();
    let n = ts.len();
    if n == 0 {
        return out;
    }
    let mut i: usize = 0;
    while i < n
        invariant
            i <= n,
            out@ == join_spec(ts.deep_view().take(i as int)),
        decreases n - i,
    {
        if i > 0 {
            out.append(" ");
            proof {
                reveal_strlit(" ");
                assert(" "@ =~= seq![' ']);
            }
        }
        out.append(ts[i].as_str());
        proof {
            let dv = ts.deep_view();
            assert(dv[i as int] == ts[i as int]@);
            if i == 0 {
                assert(join_spec(dv.take(1)) == dv.take(1)[0]);
            } else {
                assert(dv.take(i + 1).drop_last() =~= dv.take(i as int));
                assert(dv.take(i + 1).last() == dv[i as int]);
            }
        }
        i = i + 1;
    }
    proof {
        assert(ts.deep_view().take(n as int) =~= ts.deep_view());
    }
    out
}

} // verus!
