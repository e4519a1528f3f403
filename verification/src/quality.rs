//! Quality extraction: the per-read quality score is not taken from the
//! quality line but parsed from the record header, as the last
//! underscore-delimited token (for example, header `@read1_xyz_93.5` carries
//! the quality value `93.5`).  Text after the numeric token is tolerated:
//! only the token's first whitespace-separated word is parsed.
//!
//! Scores are exact decimals, held as a fixed-point integer with eighteen
//! fractional digits, so that no floating point is involved.  A token is
//! plain decimal notation — an optional sign, digits and at most one decimal
//! point, with at least one and at most eighteen digits in all.

use vstd::prelude::*;
use vstd::arithmetic::mul::lemma_mul_upper_bound;
use vstd::slice::slice_subrange;

verus! {

/// An exact decimal number, held as its value times `pow10(18)`.
#[derive(Clone, Copy, Debug, PartialEq, Eq, Structural)]
pub struct Decimal {
    pub scaled: i128,
}

/// A record header whose trailing token is not a decimal number.  The record
/// is dropped and counted as filtered; the run goes on.
#[derive(Clone, Copy, Debug, PartialEq, Eq, Structural)]
pub enum ParseError {
    /// The last underscore-delimited field of the header does not start with
    /// a decimal token.
    BadQualityToken,
}

/// Ten to the power `n`.
pub open spec fn pow10(n: nat) -> int
    decreases n,
{
    if n == 0 {
        1
    } else {
        10 * pow10((n - 1) as nat)
    }
}

/// Powers of ten are positive.
pub proof fn lemma_pow10_pos(n: nat)
    ensures
        pow10(n) >= 1,
    decreases n,
{
    if n > 0 {
        lemma_pow10_pos((n - 1) as nat);
    }
}

/// The fixed-point scale, written out.
pub proof fn lemma_pow10_18()
    ensures
        pow10(18) == 1000000000000000000,
{
    reveal_with_fuel(pow10, 19);
}

/// Powers of ten grow with the exponent.
pub proof fn lemma_pow10_mono(a: nat, b: nat)
    requires
        a <= b,
    ensures
        pow10(a) <= pow10(b),
    decreases b,
{
    if a < b {
        lemma_pow10_mono(a, (b - 1) as nat);
        lemma_pow10_pos((b - 1) as nat);
    }
}

/// An ASCII decimal digit.
pub open spec fn is_digit(c: u8) -> bool {
    48 <= c <= 57
}

/// Every byte an ASCII decimal digit.
pub open spec fn is_digits(s: Seq<u8>) -> bool {
    forall|k: int| 0 <= k < s.len() ==> is_digit(#[trigger] s[k])
}

/// The number written by a string of decimal digits, most significant first.
pub open spec fn digits_val(s: Seq<u8>) -> int
    decreases s.len(),
{
    if s.len() == 0 {
        0
    } else {
        digits_val(s.drop_last()) * 10 + (s.last() - 48)
    }
}

/// ASCII whitespace: space, tab, line feed, form feed, carriage return.
pub open spec fn is_ws(c: u8) -> bool {
    c == 32 || c == 9 || c == 10 || c == 12 || c == 13
}

/// The suffix of `h` after its last underscore; all of `h` when it has none.
pub open spec fn after_last_underscore(h: Seq<u8>) -> Seq<u8>
    decreases h.len(),
{
    if h.len() == 0 {
        h
    } else if h.last() == 95u8 {
        Seq::empty()
    } else {
        after_last_underscore(h.drop_last()).push(h.last())
    }
}

/// The first position at or after `i` that holds byte `c`, or the length of
/// `s` when none does.
pub open spec fn first_byte_at(s: Seq<u8>, c: u8, i: int) -> int
    decreases s.len() - i,
{
    if i < 0 || i >= s.len() {
        s.len() as int
    } else if s[i] == c {
        i
    } else {
        first_byte_at(s, c, i + 1)
    }
}

/// The first position at or after `i` that holds no whitespace, or the
/// length of `s`.
pub open spec fn ws_end(s: Seq<u8>, i: int) -> int
    decreases s.len() - i,
{
    if i < 0 || i >= s.len() || !is_ws(s[i]) {
        i
    } else {
        ws_end(s, i + 1)
    }
}

/// The first position at or after `i` that holds whitespace, or the length
/// of `s`.
pub open spec fn token_end(s: Seq<u8>, i: int) -> int
    decreases s.len() - i,
{
    if i < 0 || i >= s.len() || is_ws(s[i]) {
        i
    } else {
        token_end(s, i + 1)
    }
}

/// Where a token ends: at or after its start, within the text, on the
/// first whitespace.
pub proof fn lemma_token_end(s: Seq<u8>, i: int)
    requires
        0 <= i <= s.len(),
    ensures
        i <= token_end(s, i) <= s.len(),
        token_end(s, i) < s.len() ==> is_ws(s[token_end(s, i)]),
        forall|k: int| i <= k < token_end(s, i) ==> !is_ws(#[trigger] s[k]),
    decreases s.len() - i,
{
    if i < s.len() && !is_ws(s[i]) {
        lemma_token_end(s, i + 1);
    }
}

/// The first whitespace-separated word of `s`; empty when `s` is empty or
/// all whitespace.
pub open spec fn first_token(s: Seq<u8>) -> Seq<u8> {
    s.subrange(ws_end(s, 0), token_end(s, ws_end(s, 0)))
}

/// The decimal token of a header: the first word of the suffix after the
/// last underscore.
pub open spec fn quality_token(h: Seq<u8>) -> Seq<u8> {
    first_token(after_last_underscore(h))
}

/// A token without its leading sign, if it carries one.
pub open spec fn dec_body(t: Seq<u8>) -> Seq<u8> {
    if t.len() > 0 && (t[0] == 43u8 || t[0] == 45u8) {
        t.skip(1)
    } else {
        t
    }
}

/// Whether the token carries a leading minus sign.
pub open spec fn dec_negative(t: Seq<u8>) -> bool {
    t.len() > 0 && t[0] == 45u8
}

/// The digits before the decimal point of an unsigned body.
pub open spec fn dec_int_digits(b: Seq<u8>) -> Seq<u8> {
    b.take(first_byte_at(b, 46u8, 0))
}

/// The digits after the decimal point of an unsigned body; empty when the
/// body has no point.
pub open spec fn dec_frac_digits(b: Seq<u8>) -> Seq<u8> {
    if first_byte_at(b, 46u8, 0) == b.len() {
        Seq::empty()
    } else {
        b.skip(first_byte_at(b, 46u8, 0) + 1)
    }
}

/// A well-formed decimal token: an optional sign, then digits with at most
/// one decimal point among them; at least one digit, and — so that the value
/// fits the fixed-point representation — at most eighteen.
pub open spec fn dec_token_wf(t: Seq<u8>) -> bool {
    let b = dec_body(t);
    &&& is_digits(dec_int_digits(b))
    &&& is_digits(dec_frac_digits(b))
    &&& 1 <= dec_int_digits(b).len() + dec_frac_digits(b).len() <= 18
}

/// The value written by a well-formed decimal token, times `pow10(18)`.
pub open spec fn dec_token_val(t: Seq<u8>) -> int {
    let b = dec_body(t);
    let m = digits_val(dec_int_digits(b) + dec_frac_digits(b)) * pow10(
        (18 - dec_frac_digits(b).len()) as nat,
    );
    if dec_negative(t) {
        -m
    } else {
        m
    }
}

/// The quality value carried by a header, times `pow10(18)`; nothing when
/// the header's trailing token is not a well-formed decimal.
pub open spec fn quality_of(h: Seq<u8>) -> Option<int> {
    if dec_token_wf(quality_token(h)) {
        Some(dec_token_val(quality_token(h)))
    } else {
        None
    }
}

/// Ten to the power `e`, as a machine integer.
fn pow10_exec(e: usize) -> (r: i128)
    requires
        e <= 18,
    ensures
        r == pow10(e as nat),
        r >= 1,
{
    let mut r: i128 = 1;
    let mut k: usize = 0;
    while k < e
        invariant
            k <= e,
            e <= 18,
            r == pow10(k as nat),
        decreases e - k,
    {
        proof {
            lemma_pow10_mono(k as nat, 17);
            reveal_with_fuel(pow10, 19);
            assert(r <= 100000000000000000);
        }
        r = r * 10;
        k = k + 1;
    }
    proof {
        lemma_pow10_pos(e as nat);
    }
    r
}

/// The decimal token of a header: the suffix after the last underscore,
/// leading whitespace skipped, up to the next whitespace.
fn token_of_header<'a>(h: &'a [u8]) -> (t: &'a [u8])
    ensures
        t@ == quality_token(h@),
{
    let mut p: usize = h.len();
    proof {
        assert(h@.take(p as int) =~= h@);
        assert(h@.skip(p as int) =~= Seq::<u8>::empty());
        assert(after_last_underscore(h@) =~= after_last_underscore(h@.take(p as int)) + h@.skip(
            p as int,
        ));
    }
    while p > 0 && h[p - 1] != 95u8
        invariant
            p <= h@.len(),
            after_last_underscore(h@) == after_last_underscore(h@.take(p as int)) + h@.skip(
                p as int,
            ),
        decreases p,
    {
        proof {
            let t = h@.take(p as int);
            assert(t.last() == h@[p as int - 1]);
            assert(t.drop_last() =~= h@.take(p as int - 1));
            assert(after_last_underscore(h@.take(p as int - 1)) + h@.skip(p as int - 1)
                =~= after_last_underscore(t) + h@.skip(p as int));
        }
        p = p - 1;
    }
    proof {
        if p > 0 {
            let t = h@.take(p as int);
            assert(t.last() == h@[p as int - 1]);
            assert(after_last_underscore(t) =~= Seq::<u8>::empty());
        } else {
            assert(h@.take(0) =~= Seq::<u8>::empty());
        }
        assert(after_last_underscore(h@) =~= h@.skip(p as int));
    }
    let t0 = slice_subrange(h, p, h.len());
    proof {
        assert(t0@ =~= after_last_underscore(h@));
    }
    let mut a: usize = 0;
    while a < t0.len() && (t0[a] == 32u8 || t0[a] == 9u8 || t0[a] == 10u8 || t0[a] == 12u8 || t0[a]
        == 13u8)
        invariant
            a <= t0@.len(),
            ws_end(t0@, 0) == ws_end(t0@, a as int),
        decreases t0@.len() - a,
    {
        a = a + 1;
    }
    proof {
        assert(ws_end(t0@, a as int) == a as int);
    }
    let mut e: usize = a;
    while e < t0.len() && t0[e] != 32u8 && t0[e] != 9u8 && t0[e] != 10u8 && t0[e] != 12u8 && t0[e]
        != 13u8
        invariant
            a <= e <= t0@.len(),
            token_end(t0@, a as int) == token_end(t0@, e as int),
        decreases t0@.len() - e,
    {
        e = e + 1;
    }
    proof {
        assert(token_end(t0@, e as int) == e as int);
        lemma_token_end(t0@, a as int);
    }
    slice_subrange(t0, a, e)
}

/// Parse one decimal token exactly: an optional sign, digits and at most one
/// decimal point, one to eighteen digits in all.
#[verifier::rlimit(50)]
pub fn parse_decimal(token: &[u8]) -> (r: Result<Decimal, ParseError>)
    ensures
        match r {
            Ok(v) => dec_token_wf(token@) && v.scaled == dec_token_val(token@),
            Err(_) => !dec_token_wf(token@),
        },
{
    let neg = token.len() > 0 && token[0] == 45u8;
    let s0: usize = if token.len() > 0 && (token[0] == 43u8 || token[0] == 45u8) {
        1
    } else {
        0
    };
    let body = slice_subrange(token, s0, token.len());
    proof {
        assert(body@ =~= dec_body(token@));
    }
    let mut d: usize = 0;
    while d < body.len() && body[d] != 46u8
        invariant
            d <= body@.len(),
            first_byte_at(body@, 46u8, 0) == first_byte_at(body@, 46u8, d as int),
        decreases body@.len() - d,
    {
        d = d + 1;
    }
    proof {
        assert(first_byte_at(body@, 46u8, d as int) == d as int);
    }
    let ghost ints = dec_int_digits(body@);
    let ghost fracs = dec_frac_digits(body@);
    let ghost digs = ints + fracs;
    let n: usize = if d < body.len() {
        body.len() - 1
    } else {
        body.len()
    };
    proof {
        assert(ints.len() == d as int);
        assert(digs.len() == n as int);
    }
    if n < 1 || n > 18 {
        proof {
            assert(dec_body(token@) == body@);
            assert(dec_int_digits(body@).len() + dec_frac_digits(body@).len() == n as int);
            assert(!dec_token_wf(token@));
        }
        return Err(ParseError::BadQualityToken);
    }
    let mut val: i128 = 0;
    let mut k: usize = 0;
    let mut m: usize = 0;
    proof {
        assert(digs.take(0) =~= Seq::<u8>::empty());
    }
    while k < body.len()
        invariant
            k <= body@.len(),
            m as int == if k as int <= d as int {
                k as int
            } else {
                k as int - 1
            },
            m <= n,
            1 <= n <= 18,
            d <= body@.len(),
            body@ == dec_body(token@),
            first_byte_at(body@, 46u8, 0) == d as int,
            n as int == if d < body@.len() {
                body@.len() - 1
            } else {
                body@.len() as int
            },
            ints == dec_int_digits(body@),
            fracs == dec_frac_digits(body@),
            digs == ints + fracs,
            ints.len() == d as int,
            digs.len() == n as int,
            is_digits(digs.take(m as int)),
            val == digits_val(digs.take(m as int)),
            0 <= val < pow10(m as nat),
        decreases body@.len() - k,
    {
        let c = body[k];
        if k == d {
            k = k + 1;
        } else {
            if c < 48 || c > 57 {
                proof {
                    if (k as int) < d as int {
                        assert(ints[k as int] == body@[k as int]);
                        assert(!is_digits(ints));
                    } else {
                        assert(fracs[k as int - d as int - 1] == body@[k as int]);
                        assert(!is_digits(fracs));
                    }
                }
                return Err(ParseError::BadQualityToken);
            }
            proof {
                assert(m < n);
                if (k as int) < d as int {
                    assert(digs[m as int] == ints[m as int]);
                    assert(ints[k as int] == body@[k as int]);
                } else {
                    assert(digs[m as int] == fracs[m as int - d as int]);
                    assert(fracs[k as int - d as int - 1] == body@[k as int]);
                }
                assert(digs[m as int] == c);
                assert(digs.take(m as int + 1).drop_last() =~= digs.take(m as int));
                assert(digs.take(m as int + 1).last() == digs[m as int]);
                lemma_pow10_mono(m as nat + 1, 18);
                lemma_pow10_18();
                assert(val * 10 + (c - 48) < pow10(m as nat + 1));
            }
            val = val * 10 + ((c - 48) as i128);
            m = m + 1;
            k = k + 1;
        }
    }
    let scale: usize = if d < body.len() {
        body.len() - 1 - d
    } else {
        0
    };
    proof {
        assert(m == n);
        assert(digs.take(m as int) =~= digs);
        assert(fracs.len() == scale as int);
        assert forall|q: int| 0 <= q < ints.len() implies is_digit(#[trigger] ints[q]) by {
            assert(ints[q] == digs[q]);
        }
        assert forall|q: int| 0 <= q < fracs.len() implies is_digit(#[trigger] fracs[q]) by {
            assert(fracs[q] == digs[ints.len() + q]);
        }
        assert(dec_token_wf(token@));
        lemma_pow10_mono(n as nat, 18);
        lemma_pow10_18();
    }
    let pw = pow10_exec(18 - scale);
    proof {
        lemma_pow10_mono((18 - scale) as nat, 18);
        lemma_mul_upper_bound(val as int, 1000000000000000000, pw as int, 1000000000000000000);
    }
    let magnitude = val * pw;
    let scaled: i128 = if neg {
        -magnitude
    } else {
        magnitude
    };
    proof {
        assert(dec_negative(token@) == neg);
        assert(scaled == dec_token_val(token@));
    }
    Ok(Decimal { scaled })
}

/// Parse the quality score of a record header: the first word of the text
/// after the last underscore, read as a decimal number.
pub fn get_quality_value(header: &[u8]) -> (r: Result<Decimal, ParseError>)
    ensures
        match r {
            Ok(v) => quality_of(header@) == Some(v.scaled as int),
            Err(_) => quality_of(header@) is None,
        },
{
    let token = token_of_header(header);
    parse_decimal(token)
}

impl Decimal {
    /// The decimal with the value of `v`.
    pub fn from_int(v: i64) -> (d: Decimal)
        ensures
            d.scaled == v * pow10(18),
    {
        proof {
            reveal_with_fuel(pow10, 19);
            assert(pow10(18) == 1000000000000000000);
        }
        Decimal { scaled: (v as i128) * 1000000000000000000 }
    }
}

} // verus!
