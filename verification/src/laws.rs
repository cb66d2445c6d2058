//! Proved properties of the matcher: a canonical string prefixed by any run
//! of qualifiers matches its encoding, trailing content is rejected, and a
//! truncated canonical string is rejected.

use vstd::prelude::*;

use crate::encoding::Encoding;
use crate::encoding::canonical;
use crate::encoding::canonical_all;
use crate::encoding::dec_digits;
use crate::encoding::is_ascii_digit;
use crate::encoding::is_qualifier;
use crate::encoding::lemma_canonical_head;
use crate::parse::digit_run;
use crate::parse::digits_val;
use crate::parse::enc_matches;
use crate::parse::qual_run;
use crate::parse::strip_enc;
use crate::parse::strip_encs;
use crate::parse::strip_int;
use crate::parse::strip_lit;

verus! {

/// Every character of `q` is a qualifier.
pub open spec fn all_qualifiers(q: Seq<u8>) -> bool {
    forall|m: int| 0 <= m < q.len() ==> is_qualifier(q[m])
}

/// Every character of `d` is an ASCII digit.
pub open spec fn all_digits(d: Seq<u8>) -> bool {
    forall|m: int| 0 <= m < d.len() ==> is_ascii_digit(d[m])
}

/// The decimal rendering of `n` is a nonempty digit string whose value is
/// `n`, without a leading zero unless `n` is zero itself.
pub proof fn lemma_dec_digits(n: nat)
    ensures
        dec_digits(n).len() > 0,
        all_digits(dec_digits(n)),
        digits_val(dec_digits(n)) == n,
        n > 0 ==> dec_digits(n)[0] != 48,
    decreases n,
{
    let d = dec_digits(n);
    if n < 10 {
        assert(d.take(0) =~= Seq::<u8>::empty());
        assert(digits_val(Seq::<u8>::empty()) == 0);
        assert(d[0] == 48 + n);
        assert(digits_val(d) == digits_val(d.take(0)) * 10 + (d[0] - 48));
    } else {
        lemma_dec_digits(n / 10);
        let prev = dec_digits(n / 10);
        assert(d.take(d.len() - 1) =~= prev);
        assert(d[d.len() - 1] == 48 + n % 10);
        vstd::arithmetic::div_mod::lemma_fundamental_div_mod(n as int, 10);
        assert(digits_val(d) == digits_val(prev) * 10 + (n % 10));
    }
}

/// The literal `lit` strips cleanly off the front of `lit + rest`.
pub proof fn lemma_strip_lit_prefix(lit: Seq<u8>, rest: Seq<u8>)
    ensures
        strip_lit(lit + rest, lit) == Some(rest),
{
    assert((lit + rest).take(lit.len() as int) =~= lit);
    assert((lit + rest).skip(lit.len() as int) =~= rest);
}

/// The maximal digit run of `d + rest` is exactly `d` when `d` is all digits
/// and `rest` does not begin with one.
pub proof fn lemma_digit_run_concat(d: Seq<u8>, rest: Seq<u8>)
    requires
        all_digits(d),
        rest.len() == 0 || !is_ascii_digit(rest[0]),
    ensures
        digit_run(d + rest) == d.len(),
        (d + rest).take(d.len() as int) == d,
        (d + rest).skip(d.len() as int) == rest,
    decreases d.len(),
{
    assert((d + rest).take(d.len() as int) =~= d);
    assert((d + rest).skip(d.len() as int) =~= rest);
    if d.len() == 0 {
        assert(d + rest =~= rest);
    } else {
        assert((d + rest)[0] == d[0]);
        assert((d + rest).skip(1) =~= d.skip(1) + rest);
        assert(all_digits(d.skip(1)));
        lemma_digit_run_concat(d.skip(1), rest);
    }
}

/// A maximal run of qualifiers followed by a non-qualifier is measured
/// exactly by `qual_run`.
pub proof fn lemma_qual_run_concat(q: Seq<u8>, rest: Seq<u8>)
    requires
        all_qualifiers(q),
        rest.len() == 0 || !is_qualifier(rest[0]),
    ensures
        qual_run(q + rest) == q.len(),
        (q + rest).skip(q.len() as int) == rest,
    decreases q.len(),
{
    assert((q + rest).skip(q.len() as int) =~= rest);
    if q.len() == 0 {
        assert(q + rest =~= rest);
    } else {
        assert((q + rest)[0] == q[0]);
        assert((q + rest).skip(1) =~= q.skip(1) + rest);
        assert(all_qualifiers(q.skip(1)));
        lemma_qual_run_concat(q.skip(1), rest);
    }
}

/// The decimal rendering of `n` strips off as the integer `n` when what
/// follows does not begin with a digit.
pub proof fn lemma_strip_int_exact(n: nat, rest: Seq<u8>)
    requires
        rest.len() == 0 || !is_ascii_digit(rest[0]),
    ensures
        strip_int(dec_digits(n) + rest, n as int) == Some(rest),
{
    lemma_dec_digits(n);
    lemma_digit_run_concat(dec_digits(n), rest);
}

/// The canonical string of `e` strips off the front of `canonical(e) + rest`
/// and leaves exactly `rest`, provided `rest` does not begin with a digit
/// (a digit would extend the final digit run of a bitfield encoding).
pub proof fn lemma_strip_canonical(e: Encoding, rest: Seq<u8>)
    requires
        rest.len() == 0 || !is_ascii_digit(rest[0]),
    ensures
        strip_enc(canonical(e) + rest, e) == Some(rest),
    decreases e, 0int, 0int,
{
    let s = canonical(e) + rest;
    match e {
        Encoding::BitField(width) => {
            let dd = dec_digits(width as nat);
            assert(s =~= seq![98u8] + (dd + rest));
            lemma_strip_lit_prefix(seq![98u8], dd + rest);
            lemma_strip_int_exact(width as nat, rest);
        },
        Encoding::Pointer(t) => {
            assert(s =~= seq![94u8] + (canonical(*t) + rest));
            lemma_strip_lit_prefix(seq![94u8], canonical(*t) + rest);
            lemma_strip_canonical(*t, rest);
        },
        Encoding::Array(len, item) => {
            let dd = dec_digits(len as nat);
            let tail = seq![93u8] + rest;
            let inner = canonical(*item) + tail;
            assert(s =~= seq![91u8] + (dd + inner));
            lemma_strip_lit_prefix(seq![91u8], dd + inner);
            lemma_canonical_head(*item);
            assert(inner[0] == canonical(*item)[0]);
            lemma_dec_digits(len as nat);
            lemma_digit_run_concat(dd, inner);
            lemma_strip_canonical(*item, tail);
            lemma_strip_lit_prefix(seq![93u8], rest);
            assert(canonical(*item) + tail =~= canonical(*item) + (seq![93u8] + rest));
        },
        Encoding::Struct(name, fields) => {
            let cc = canonical_all(fields@, 0);
            let tail = seq![125u8] + rest;
            assert(s =~= seq![123u8] + (name@ + (seq![61u8] + (cc + tail))));
            lemma_strip_lit_prefix(seq![123u8], name@ + (seq![61u8] + (cc + tail)));
            lemma_strip_lit_prefix(name@, seq![61u8] + (cc + tail));
            lemma_strip_lit_prefix(seq![61u8], cc + tail);
            assert(tail[0] == 125u8);
            assert(decreases_to!(e => e->Struct_1));
            assert(decreases_to!(fields => fields@));
            lemma_strip_canonical_all(fields@, 0, tail);
            lemma_strip_lit_prefix(seq![125u8], rest);
        },
        Encoding::Union(name, members) => {
            let cc = canonical_all(members@, 0);
            let tail = seq![41u8] + rest;
            assert(s =~= seq![40u8] + (name@ + (seq![61u8] + (cc + tail))));
            lemma_strip_lit_prefix(seq![40u8], name@ + (seq![61u8] + (cc + tail)));
            lemma_strip_lit_prefix(name@, seq![61u8] + (cc + tail));
            lemma_strip_lit_prefix(seq![61u8], cc + tail);
            assert(tail[0] == 41u8);
            assert(decreases_to!(e => e->Union_1));
            assert(decreases_to!(members => members@));
            lemma_strip_canonical_all(members@, 0, tail);
            lemma_strip_lit_prefix(seq![41u8], rest);
        },
        _ => {
            lemma_strip_lit_prefix(canonical(e), rest);
        },
    }
}

/// The canonical strings of `es[k..]`, concatenated, strip off in order and
/// leave exactly `rest`.
pub proof fn lemma_strip_canonical_all(es: Seq<Encoding>, k: int, rest: Seq<u8>)
    requires
        0 <= k <= es.len(),
        rest.len() == 0 || !is_ascii_digit(rest[0]),
    ensures
        strip_encs(canonical_all(es, k) + rest, es, k) == Some(rest),
    decreases es, es.len() - k, 1int,
{
    if k == es.len() {
        assert(canonical_all(es, k) + rest =~= rest);
    } else {
        let cont = canonical_all(es, k + 1) + rest;
        assert(canonical_all(es, k) + rest =~= canonical(es[k]) + cont);
        if k + 1 < es.len() {
            lemma_canonical_head(es[k + 1]);
            assert(cont[0] == canonical(es[k + 1])[0]);
        } else {
            assert(cont =~= rest);
        }
        assert(decreases_to!(es => es[k]));
        lemma_strip_canonical(es[k], cont);
        lemma_strip_canonical_all(es, k + 1, rest);
    }
}

/// Every character of `x` is the digit zero.
pub open spec fn all_zero_digits(x: Seq<u8>) -> bool {
    forall|m: int| 0 <= m < x.len() ==> x[m] == 48
}

/// Whether the canonical string of `e` ends in the digits of a zero-width
/// bitfield: exactly then an all-zero suffix can extend the final digit run
/// without changing its value.
pub open spec fn trailing_zero_bitfield(e: Encoding) -> bool
    decreases e,
{
    match e {
        Encoding::BitField(width) => width == 0,
        Encoding::Pointer(t) => trailing_zero_bitfield(*t),
        _ => false,
    }
}

/// Ten to the power `k`.
pub open spec fn pow10(k: nat) -> int
    decreases k,
{
    if k == 0 {
        1
    } else {
        10 * pow10((k - 1) as nat)
    }
}

/// Powers of ten are positive, and at least ten from the first power on.
pub proof fn lemma_pow10(k: nat)
    ensures
        pow10(k) >= 1,
        k >= 1 ==> pow10(k) >= 10,
    decreases k,
{
    if k >= 1 {
        lemma_pow10((k - 1) as nat);
    }
}

/// Appending digits multiplies the leading value by the matching power of
/// ten and adds the appended value.
pub proof fn lemma_digits_val_concat(a: Seq<u8>, b: Seq<u8>)
    ensures
        digits_val(a + b) == digits_val(a) * pow10(b.len()) + digits_val(b),
    decreases b.len(),
{
    if b.len() == 0 {
        assert(a + b =~= a);
    } else {
        let b0 = b.take(b.len() - 1);
        lemma_digits_val_concat(a, b0);
        assert((a + b).take((a + b).len() - 1) =~= a + b0);
        assert((a + b)[(a + b).len() - 1] == b[b.len() - 1]);
        assert(digits_val(a + b) == digits_val(a + b0) * 10 + (b[b.len() - 1] - 48));
        vstd::arithmetic::mul::lemma_mul_is_distributive_add(10, digits_val(a) * pow10(b0.len()), digits_val(b0));
        vstd::arithmetic::mul::lemma_mul_is_associative(digits_val(a), pow10(b0.len()), 10);
        assert(pow10(b.len()) == 10 * pow10(b0.len()));
        vstd::arithmetic::mul::lemma_mul_is_commutative(pow10(b0.len()), 10);
        vstd::arithmetic::mul::lemma_mul_is_commutative(digits_val(a), pow10(b.len()));
    }
}

/// The value of a digit string is nonnegative and below ten to its length.
pub proof fn lemma_digits_val_bound(d: Seq<u8>)
    requires
        all_digits(d),
    ensures
        0 <= digits_val(d) < pow10(d.len()),
    decreases d.len(),
{
    if d.len() > 0 {
        let d0 = d.take(d.len() - 1);
        assert(all_digits(d0));
        lemma_digits_val_bound(d0);
        assert(is_ascii_digit(d[d.len() - 1]));
    }
}

/// A digit string of value zero consists entirely of zero digits.
pub proof fn lemma_digits_val_zero(d: Seq<u8>)
    requires
        all_digits(d),
        digits_val(d) == 0,
    ensures
        all_zero_digits(d),
    decreases d.len(),
{
    if d.len() > 0 {
        let d0 = d.take(d.len() - 1);
        assert(all_digits(d0));
        lemma_digits_val_bound(d0);
        assert(is_ascii_digit(d[d.len() - 1]));
        assert(digits_val(d0) == 0 && d[d.len() - 1] == 48);
        lemma_digits_val_zero(d0);
        assert forall|m: int| 0 <= m < d.len() implies d[m] == 48 by {
            if m < d.len() - 1 {
                assert(d0[m] == 48);
            }
        }
    }
}

/// A leading all-digit block extends the digit run past it.
pub proof fn lemma_digit_run_all(a: Seq<u8>, b: Seq<u8>)
    requires
        all_digits(a),
    ensures
        digit_run(a + b) == a.len() + digit_run(b),
    decreases a.len(),
{
    if a.len() == 0 {
        assert(a + b =~= b);
    } else {
        assert((a + b)[0] == a[0]);
        assert((a + b).skip(1) =~= a.skip(1) + b);
        assert(all_digits(a.skip(1)));
        lemma_digit_run_all(a.skip(1), b);
    }
}

/// The digit run of `x` is within bounds, covers only digits, and stops at a
/// non-digit if anything follows it.
pub proof fn lemma_digit_run_props(x: Seq<u8>)
    ensures
        0 <= digit_run(x) <= x.len(),
        all_digits(x.take(digit_run(x))),
        digit_run(x) < x.len() ==> !is_ascii_digit(x[digit_run(x)]),
    decreases x.len(),
{
    if x.len() > 0 && is_ascii_digit(x[0]) {
        lemma_digit_run_props(x.skip(1));
        let k = digit_run(x);
        assert(k == 1 + digit_run(x.skip(1)));
        assert forall|m: int| 0 <= m < k implies is_ascii_digit(x.take(k)[m]) by {
            if m > 0 {
                assert(x.skip(1).take(k - 1)[m - 1] == x[m]);
            }
        }
        if k < x.len() {
            assert(x[k] == x.skip(1)[k - 1]);
        }
    }
}

/// Nothing strips off an empty string: every encoding needs at least one
/// character.
pub proof fn lemma_strip_empty(e: Encoding)
    ensures
        strip_enc(Seq::<u8>::empty(), e) is None,
{
}

/// Stripping the canonical string of `e` with a nonempty suffix appended
/// never consumes the whole string, except when the canonical string ends in
/// the digits of a zero-width bitfield and the suffix consists of zero
/// digits only (those extend the final digit run without changing its
/// value).
pub proof fn lemma_strip_canonical_trailing(e: Encoding, x: Seq<u8>)
    requires
        x.len() > 0,
        !(trailing_zero_bitfield(e) && all_zero_digits(x)),
    ensures
        strip_enc(canonical(e) + x, e) != Some(Seq::<u8>::empty()),
    decreases e,
{
    let s = canonical(e) + x;
    if x.len() > 0 && !is_ascii_digit(x[0]) {
        lemma_strip_canonical(e, x);
    } else {
        match e {
            Encoding::BitField(width) => {
                let dd = dec_digits(width as nat);
                assert(s =~= seq![98u8] + (dd + x));
                lemma_strip_lit_prefix(seq![98u8], dd + x);
                lemma_dec_digits(width as nat);
                let j = digit_run(x);
                lemma_digit_run_props(x);
                assert(j >= 1);
                let y = x.take(j);
                lemma_digit_run_all(dd, x);
                assert(digit_run(dd + x) == dd.len() + j);
                assert((dd + x).take(dd.len() + j) =~= dd + y);
                lemma_digits_val_concat(dd, y);
                lemma_digits_val_bound(y);
                lemma_pow10(j as nat);
                if width > 0 {
                    assert(digits_val(dd) * pow10(y.len()) >= 10 * digits_val(dd))
                        by (nonlinear_arith)
                        requires
                            pow10(y.len()) >= 10,
                            digits_val(dd) > 0,
                    ;
                    assert(digits_val(dd + y) != width as int);
                } else {
                    if digits_val(dd + y) == 0 {
                        assert(digits_val(y) == 0);
                        lemma_digits_val_zero(y);
                        if j == x.len() {
                            assert(x =~= y);
                            assert(false);
                        } else {
                            assert((dd + x).skip(dd.len() + j) =~= x.skip(j));
                            assert(x.skip(j).len() > 0);
                        }
                    }
                }
            },
            Encoding::Pointer(t) => {
                assert(s =~= seq![94u8] + (canonical(*t) + x));
                lemma_strip_lit_prefix(seq![94u8], canonical(*t) + x);
                lemma_strip_canonical_trailing(*t, x);
            },
            Encoding::Array(len, item) => {
                let dd = dec_digits(len as nat);
                let tail = seq![93u8] + x;
                let inner = canonical(*item) + tail;
                assert(s =~= seq![91u8] + (dd + inner));
                lemma_strip_lit_prefix(seq![91u8], dd + inner);
                lemma_canonical_head(*item);
                assert(inner[0] == canonical(*item)[0]);
                lemma_dec_digits(len as nat);
                lemma_digit_run_concat(dd, inner);
                lemma_strip_canonical(*item, tail);
                lemma_strip_lit_prefix(seq![93u8], x);
                assert(canonical(*item) + tail =~= canonical(*item) + (seq![93u8] + x));
            },
            Encoding::Struct(name, fields) => {
                let cc = canonical_all(fields@, 0);
                let tail = seq![125u8] + x;
                assert(s =~= seq![123u8] + (name@ + (seq![61u8] + (cc + tail))));
                lemma_strip_lit_prefix(seq![123u8], name@ + (seq![61u8] + (cc + tail)));
                lemma_strip_lit_prefix(name@, seq![61u8] + (cc + tail));
                lemma_strip_lit_prefix(seq![61u8], cc + tail);
                assert(tail[0] == 125u8);
                lemma_strip_canonical_all(fields@, 0, tail);
                lemma_strip_lit_prefix(seq![125u8], x);
            },
            Encoding::Union(name, members) => {
                let cc = canonical_all(members@, 0);
                let tail = seq![41u8] + x;
                assert(s =~= seq![40u8] + (name@ + (seq![61u8] + (cc + tail))));
                lemma_strip_lit_prefix(seq![40u8], name@ + (seq![61u8] + (cc + tail)));
                lemma_strip_lit_prefix(name@, seq![61u8] + (cc + tail));
                lemma_strip_lit_prefix(seq![61u8], cc + tail);
                assert(tail[0] == 41u8);
                lemma_strip_canonical_all(members@, 0, tail);
                lemma_strip_lit_prefix(seq![41u8], x);
            },
            _ => {
                lemma_strip_lit_prefix(canonical(e), x);
            },
        }
    }
}

/// Any nonempty trailing content after the canonical string of `e` makes the
/// match fail, except for an all-zero suffix extending a trailing zero-width
/// bitfield.
pub proof fn lemma_trailing_rejected(e: Encoding, x: Seq<u8>)
    requires
        x.len() > 0,
        !(trailing_zero_bitfield(e) && all_zero_digits(x)),
    ensures
        !enc_matches(canonical(e) + x, e),
{
    let s = canonical(e) + x;
    lemma_canonical_head(e);
    assert(s[0] == canonical(e)[0]);
    assert(qual_run(s) == 0);
    assert(s.skip(0) =~= s);
    lemma_strip_canonical_trailing(e, x);
}

/// Stripping `e` off any strict prefix of its canonical string fails
/// outright: a rendering cut short anywhere, in particular one missing a
/// closing delimiter, never strips.
pub proof fn lemma_strip_canonical_truncated(e: Encoding, k: int)
    requires
        0 <= k < canonical(e).len(),
    ensures
        strip_enc(canonical(e).take(k), e) is None,
    decreases e, 0int, 0int,
{
    let c = canonical(e);
    let p = c.take(k);
    if k == 0 {
        assert(p =~= Seq::<u8>::empty());
        lemma_strip_empty(e);
    } else {
        match e {
            Encoding::BitField(width) => {
                let dd = dec_digits(width as nat);
                lemma_dec_digits(width as nat);
                assert(p.take(1) =~= seq![98u8]);
                assert(p.skip(1) =~= dd.take(k - 1));
                let d1 = dd.take(k - 1);
                assert(all_digits(d1));
                if k - 1 > 0 {
                    assert(d1 + Seq::<u8>::empty() =~= d1);
                    lemma_digit_run_all(d1, Seq::<u8>::empty());
                    assert(digit_run(d1) == k - 1);
                    assert(d1.take(k - 1) =~= d1);
                    let rest2 = dd.skip(k - 1);
                    assert(all_digits(rest2));
                    assert(dd =~= d1 + rest2);
                    lemma_digits_val_concat(d1, rest2);
                    lemma_digits_val_bound(rest2);
                    let m = rest2.len();
                    lemma_pow10(m as nat);
                    if width == 0 {
                        assert(dd.len() == 1);
                        assert(false);
                    } else {
                        if digits_val(d1) == width as int {
                            assert((width as int) * pow10(m as nat) >= 10 * (width as int))
                                by (nonlinear_arith)
                                requires
                                    pow10(m as nat) >= 10,
                                    width > 0,
                            ;
                            assert(false);
                        }
                    }
                }
            },
            Encoding::Pointer(t) => {
                assert(p.take(1) =~= seq![94u8]);
                assert(p.skip(1) =~= canonical(*t).take(k - 1));
                lemma_strip_canonical_truncated(*t, k - 1);
            },
            Encoding::Array(len, item) => {
                let dd = dec_digits(len as nat);
                lemma_dec_digits(len as nat);
                let cc = canonical(*item);
                lemma_canonical_head(*item);
                let rr = cc + seq![93u8];
                assert(p.take(1) =~= seq![91u8]);
                assert(p.skip(1) =~= (dd + rr).take(k - 1));
                let k1 = k - 1;
                if k1 < dd.len() {
                    let d1 = dd.take(k1);
                    assert((dd + rr).take(k1) =~= d1);
                    assert(all_digits(d1));
                    if k1 > 0 {
                        assert(d1 + Seq::<u8>::empty() =~= d1);
                        lemma_digit_run_all(d1, Seq::<u8>::empty());
                        assert(d1.take(k1) =~= d1);
                        let rest2 = dd.skip(k1);
                        assert(all_digits(rest2));
                        assert(dd =~= d1 + rest2);
                        lemma_digits_val_concat(d1, rest2);
                        lemma_digits_val_bound(rest2);
                        let m = rest2.len();
                        lemma_pow10(m as nat);
                        if len == 0 {
                            assert(dd.len() == 1);
                            assert(false);
                        } else {
                            if digits_val(d1) == len as int {
                                assert((len as int) * pow10(m as nat) >= 10 * (len as int))
                                    by (nonlinear_arith)
                                    requires
                                        pow10(m as nat) >= 10,
                                        len > 0,
                                ;
                                assert(false);
                            }
                        }
                    }
                } else {
                    let m1 = k1 - dd.len();
                    assert((dd + rr).take(k1) =~= dd + rr.take(m1));
                    if m1 == 0 {
                        assert(dd + rr.take(m1) =~= dd);
                        assert(dd + Seq::<u8>::empty() =~= dd);
                        lemma_digit_run_all(dd, Seq::<u8>::empty());
                        assert(dd.take(dd.len() as int) =~= dd);
                        assert(dd.skip(dd.len() as int) =~= Seq::<u8>::empty());
                        lemma_strip_empty(*item);
                    } else {
                        assert(rr.take(m1)[0] == cc[0]);
                        lemma_digit_run_concat(dd, rr.take(m1));
                        if m1 < cc.len() {
                            assert(rr.take(m1) =~= cc.take(m1));
                            lemma_strip_canonical_truncated(*item, m1);
                        } else {
                            assert(m1 == cc.len());
                            assert(rr.take(m1) =~= cc);
                            assert(cc + Seq::<u8>::empty() =~= cc);
                            lemma_strip_canonical(*item, Seq::<u8>::empty());
                        }
                    }
                }
            },
            Encoding::Struct(name, fields) => {
                let aa = name@;
                let cc = canonical_all(fields@, 0);
                let rr = seq![61u8] + (cc + seq![125u8]);
                assert(p.take(1) =~= seq![123u8]);
                assert(p.skip(1) =~= (aa + rr).take(k - 1));
                let k1 = k - 1;
                if k1 < aa.len() {
                    assert((aa + rr).take(k1).len() < aa.len());
                } else {
                    let m = k1 - aa.len();
                    assert((aa + rr).take(k1) =~= aa + rr.take(m));
                    lemma_strip_lit_prefix(aa, rr.take(m));
                    if m == 0 {
                    } else {
                        assert(rr.take(m) =~= seq![61u8] + (cc + seq![125u8]).take(m - 1));
                        lemma_strip_lit_prefix(seq![61u8], (cc + seq![125u8]).take(m - 1));
                        let m1 = m - 1;
                        if m1 < cc.len() {
                            assert((cc + seq![125u8]).take(m1) =~= cc.take(m1));
                            assert(decreases_to!(e => e->Struct_1));
                            assert(decreases_to!(fields => fields@));
                            lemma_strip_canonical_all_truncated(fields@, 0, m1);
                        } else {
                            assert(m1 == cc.len());
                            assert((cc + seq![125u8]).take(m1) =~= cc);
                            assert(cc + Seq::<u8>::empty() =~= cc);
                            assert(decreases_to!(e => e->Struct_1));
                            assert(decreases_to!(fields => fields@));
                            lemma_strip_canonical_all(fields@, 0, Seq::<u8>::empty());
                        }
                    }
                }
            },
            Encoding::Union(name, members) => {
                let aa = name@;
                let cc = canonical_all(members@, 0);
                let rr = seq![61u8] + (cc + seq![41u8]);
                assert(p.take(1) =~= seq![40u8]);
                assert(p.skip(1) =~= (aa + rr).take(k - 1));
                let k1 = k - 1;
                if k1 < aa.len() {
                    assert((aa + rr).take(k1).len() < aa.len());
                } else {
                    let m = k1 - aa.len();
                    assert((aa + rr).take(k1) =~= aa + rr.take(m));
                    lemma_strip_lit_prefix(aa, rr.take(m));
                    if m == 0 {
                    } else {
                        assert(rr.take(m) =~= seq![61u8] + (cc + seq![41u8]).take(m - 1));
                        lemma_strip_lit_prefix(seq![61u8], (cc + seq![41u8]).take(m - 1));
                        let m1 = m - 1;
                        if m1 < cc.len() {
                            assert((cc + seq![41u8]).take(m1) =~= cc.take(m1));
                            assert(decreases_to!(e => e->Union_1));
                            assert(decreases_to!(members => members@));
                            lemma_strip_canonical_all_truncated(members@, 0, m1);
                        } else {
                            assert(m1 == cc.len());
                            assert((cc + seq![41u8]).take(m1) =~= cc);
                            assert(cc + Seq::<u8>::empty() =~= cc);
                            assert(decreases_to!(e => e->Union_1));
                            assert(decreases_to!(members => members@));
                            lemma_strip_canonical_all(members@, 0, Seq::<u8>::empty());
                        }
                    }
                }
            },
            _ => {
                assert(p.len() < c.len());
            },
        }
    }
}

/// Stripping `es[k0..]` off any strict prefix of their concatenated
/// canonical strings fails outright.
pub proof fn lemma_strip_canonical_all_truncated(es: Seq<Encoding>, k0: int, j: int)
    requires
        0 <= k0 <= es.len(),
        0 <= j < canonical_all(es, k0).len(),
    ensures
        strip_encs(canonical_all(es, k0).take(j), es, k0) is None,
    decreases es, es.len() - k0, 1int,
{
    if k0 < es.len() {
        let c0 = canonical(es[k0]);
        let rest = canonical_all(es, k0 + 1);
        let p = canonical_all(es, k0).take(j);
        assert(decreases_to!(es => es[k0]));
        if j < c0.len() {
            assert(p =~= c0.take(j));
            lemma_strip_canonical_truncated(es[k0], j);
        } else {
            let j1 = j - c0.len();
            let r0 = rest.take(j1);
            assert(p =~= c0 + r0);
            if j1 > 0 {
                lemma_canonical_head(es[k0 + 1]);
                assert(r0[0] == canonical(es[k0 + 1])[0]);
            }
            lemma_strip_canonical(es[k0], r0);
            lemma_strip_canonical_all_truncated(es, k0 + 1, j1);
        }
    }
}

/// A canonical string cut short anywhere, in particular one missing its
/// closing delimiter, does not match its encoding.
pub proof fn lemma_truncated_rejected(e: Encoding, k: int)
    requires
        0 <= k < canonical(e).len(),
    ensures
        !enc_matches(canonical(e).take(k), e),
{
    let p = canonical(e).take(k);
    lemma_canonical_head(e);
    if k == 0 {
        assert(p =~= Seq::<u8>::empty());
        lemma_strip_empty(e);
    } else {
        assert(p[0] == canonical(e)[0]);
        assert(qual_run(p) == 0);
        assert(p.skip(0) =~= p);
        lemma_strip_canonical_truncated(e, k);
    }
}

/// Prefixing the canonical string of an encoding with any run of qualifier
/// characters, in any order and any quantity, still matches the encoding.
pub proof fn lemma_qualified_canonical_matches(q: Seq<u8>, e: Encoding)
    requires
        all_qualifiers(q),
    ensures
        enc_matches(q + canonical(e), e),
{
    lemma_canonical_head(e);
    lemma_qual_run_concat(q, canonical(e));
    lemma_strip_canonical(e, Seq::empty());
    assert(canonical(e) + Seq::<u8>::empty() =~= canonical(e));
}

} // verus!
