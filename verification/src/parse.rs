//! The encoding matcher: decides whether an encoding string exactly denotes a
//! given structured [`Encoding`], consuming leading qualifiers and the
//! structural prefix, and requiring the string to be fully consumed.

use vstd::prelude::*;

use crate::encoding::Encoding;
use crate::encoding::is_ascii_digit;
use crate::encoding::is_qualifier;

verus! {

/// Remove the literal `lit` from the front of `s`, or fail.
pub open spec fn strip_lit(s: Seq<u8>, lit: Seq<u8>) -> Option<Seq<u8>> {
    if lit.len() <= s.len() && s.take(lit.len() as int) == lit {
        Some(s.skip(lit.len() as int))
    } else {
        None
    }
}

/// The number of leading ASCII digits of `s`.
pub open spec fn digit_run(s: Seq<u8>) -> int
    decreases s.len(),
{
    if s.len() > 0 && is_ascii_digit(s[0]) {
        1 + digit_run(s.skip(1))
    } else {
        0
    }
}

/// The number of leading qualifier characters of `s`.
pub open spec fn qual_run(s: Seq<u8>) -> int
    decreases s.len(),
{
    if s.len() > 0 && is_qualifier(s[0]) {
        1 + qual_run(s.skip(1))
    } else {
        0
    }
}

/// The numeric value of a string of ASCII digits, most significant first.
pub open spec fn digits_val(s: Seq<u8>) -> int
    decreases s.len(),
{
    if s.len() == 0 {
        0
    } else {
        digits_val(s.take(s.len() - 1)) * 10 + (s[s.len() - 1] - 48u8)
    }
}

/// Remove the maximal run of leading digits from `s`; succeed exactly when
/// the run is nonempty and its value is `n`.
pub open spec fn strip_int(s: Seq<u8>, n: int) -> Option<Seq<u8>> {
    let k = digit_run(s);
    if k > 0 && digits_val(s.take(k)) == n {
        Some(s.skip(k))
    } else {
        None
    }
}

/// Remove the structural prefix denoting `e` from the front of `s`, returning
/// the rest of the string, or fail if `s` does not begin with a rendering of
/// `e`. There is no backtracking: digit runs are consumed maximally, and
/// struct and union names are matched byte-for-byte.
pub open spec fn strip_enc(s: Seq<u8>, e: Encoding) -> Option<Seq<u8>>
    decreases e, 0int, 0int,
{
    match e {
        Encoding::Char => strip_lit(s, seq![99u8]),
        Encoding::Short => strip_lit(s, seq![115u8]),
        Encoding::Int => strip_lit(s, seq![105u8]),
        Encoding::Long => strip_lit(s, seq![108u8]),
        Encoding::LongLong => strip_lit(s, seq![113u8]),
        Encoding::UChar => strip_lit(s, seq![67u8]),
        Encoding::UShort => strip_lit(s, seq![83u8]),
        Encoding::UInt => strip_lit(s, seq![73u8]),
        Encoding::ULong => strip_lit(s, seq![76u8]),
        Encoding::ULongLong => strip_lit(s, seq![81u8]),
        Encoding::Float => strip_lit(s, seq![102u8]),
        Encoding::Double => strip_lit(s, seq![100u8]),
        Encoding::Bool => strip_lit(s, seq![66u8]),
        Encoding::Void => strip_lit(s, seq![118u8]),
        Encoding::String => strip_lit(s, seq![42u8]),
        Encoding::Object => strip_lit(s, seq![64u8]),
        Encoding::Block => strip_lit(s, seq![64u8, 63u8]),
        Encoding::Class => strip_lit(s, seq![35u8]),
        Encoding::Sel => strip_lit(s, seq![58u8]),
        Encoding::Unknown => strip_lit(s, seq![63u8]),
        Encoding::BitField(width) => match strip_lit(s, seq![98u8]) {
            Some(s1) => strip_int(s1, width as int),
            None => None,
        },
        Encoding::Pointer(t) => match strip_lit(s, seq![94u8]) {
            Some(s1) => strip_enc(s1, *t),
            None => None,
        },
        Encoding::Array(len, item) => match strip_lit(s, seq![91u8]) {
            Some(s1) => match strip_int(s1, len as int) {
                Some(s2) => match strip_enc(s2, *item) {
                    Some(s3) => strip_lit(s3, seq![93u8]),
                    None => None,
                },
                None => None,
            },
            None => None,
        },
        Encoding::Struct(name, fields) => match strip_lit(s, seq![123u8]) {
            Some(s1) => match strip_lit(s1, name@) {
                Some(s2) => match strip_lit(s2, seq![61u8]) {
                    Some(s3) => match strip_encs(s3, fields@, 0) {
                        Some(s4) => strip_lit(s4, seq![125u8]),
                        None => None,
                    },
                    None => None,
                },
                None => None,
            },
            None => None,
        },
        Encoding::Union(name, members) => match strip_lit(s, seq![40u8]) {
            Some(s1) => match strip_lit(s1, name@) {
                Some(s2) => match strip_lit(s2, seq![61u8]) {
                    Some(s3) => match strip_encs(s3, members@, 0) {
                        Some(s4) => strip_lit(s4, seq![41u8]),
                        None => None,
                    },
                    None => None,
                },
                None => None,
            },
            None => None,
        },
    }
}

/// Remove the structural prefixes denoting `es[k..]`, in order, from the
/// front of `s`.
pub open spec fn strip_encs(s: Seq<u8>, es: Seq<Encoding>, k: int) -> Option<Seq<u8>>
    decreases es, es.len() - k, 1int,
{
    if 0 <= k < es.len() {
        match strip_enc(s, es[k]) {
            Some(s1) => strip_encs(s1, es, k + 1),
            None => None,
        }
    } else {
        Some(s)
    }
}

/// Whether the string `s` exactly denotes the encoding `e`: after ignoring
/// any leading qualifier characters, the whole rest of `s` must be a
/// rendering of `e`, with nothing left over.
pub open spec fn enc_matches(s: Seq<u8>, e: Encoding) -> bool {
    strip_enc(s.skip(qual_run(s)), e) == Some(Seq::<u8>::empty())
}

/// Multiplying an accumulator by ten and adding a digit stays within `m`
/// exactly when the accumulator is at most `(m - d) / 10`.
proof fn lemma_shift_bound(a: int, d: int, m: int)
    requires
        0 <= a,
        0 <= d <= 9,
        d <= m,
    ensures
        a <= (m - d) / 10 ==> a * 10 + d <= m,
        a > (m - d) / 10 ==> a * 10 + d > m,
{
    let q = (m - d) / 10;
    let r = (m - d) % 10;
    vstd::arithmetic::div_mod::lemma_fundamental_div_mod(m - d, 10);
    assert(m - d == 10 * q + r);
}

fn is_qual_byte(c: u8) -> (r: bool)
    ensures
        r == is_qualifier(c),
{
    c == 114 || c == 110 || c == 78 || c == 111 || c == 79 || c == 82 || c == 86
}

/// Remove the single byte `c` from the front of `s` at position `i`.
fn strip_byte(s: &[u8], i: usize, c: u8) -> (r: Option<usize>)
    requires
        i <= s@.len(),
    ensures
        match r {
            Some(j) => i < j <= s@.len() && strip_lit(s@.skip(i as int), seq![c]) == Some(
                s@.skip(j as int),
            ),
            None => strip_lit(s@.skip(i as int), seq![c]) is None,
        },
{
    let ghost t = s@.skip(i as int);
    if i < s.len() && s[i] == c {
        proof {
            assert(t.take(1) =~= seq![c]);
            assert(t.skip(1) =~= s@.skip(i as int + 1));
        }
        Some(i + 1)
    } else {
        proof {
            if t.len() >= 1 {
                assert(t.take(1)[0] == s@[i as int]);
            }
        }
        None
    }
}

/// Remove the literal bytes of `lit` from the front of `s` at position `i`.
fn strip_bytes(s: &[u8], i: usize, lit: &Vec<u8>) -> (r: Option<usize>)
    requires
        i <= s@.len(),
    ensures
        match r {
            Some(j) => i <= j <= s@.len() && strip_lit(s@.skip(i as int), lit@) == Some(
                s@.skip(j as int),
            ),
            None => strip_lit(s@.skip(i as int), lit@) is None,
        },
{
    let ghost t = s@.skip(i as int);
    let n: usize = s.len();
    if lit.len() > n - i {
        return None;
    }
    let mut k: usize = 0;
    while k < lit.len()
        invariant
            i <= s@.len(),
            n == s@.len(),
            k <= lit@.len(),
            lit@.len() <= s@.len() - i,
            t == s@.skip(i as int),
            forall|m: int| 0 <= m < k ==> s@[i + m] == lit@[m],
        decreases lit@.len() - k,
    {
        if s[i + k] != lit[k] {
            proof {
                assert(t.take(lit@.len() as int)[k as int] == s@[i + k]);
            }
            return None;
        }
        k = k + 1;
    }
    proof {
        assert(t.take(lit@.len() as int) =~= lit@);
        assert(t.skip(lit@.len() as int) =~= s@.skip(i + lit@.len()));
    }
    Some(i + lit.len())
}

/// Consume the maximal run of ASCII decimal digits of `s` starting at `i` and
/// parse it; fail on an empty run or a value beyond the integer range.
pub fn chomp_int(s: &[u8], i: usize) -> (r: Option<(u64, usize)>)
    requires
        i <= s@.len(),
    ensures
        match r {
            Some(p) => {
                let t = s@.skip(i as int);
                let k = digit_run(t);
                &&& k > 0
                &&& p.1 == i + k
                &&& i < p.1 <= s@.len()
                &&& digits_val(t.take(k)) == p.0 as int
            },
            None => {
                let t = s@.skip(i as int);
                let k = digit_run(t);
                k == 0 || digits_val(t.take(k)) > u64::MAX
            },
        },
{
    let ghost t = s@.skip(i as int);
    let mut j: usize = i;
    let mut acc: u64 = 0;
    let mut over: bool = false;
    while j < s.len() && 48 <= s[j] && s[j] <= 57
        invariant
            i <= j <= s@.len(),
            t == s@.skip(i as int),
            forall|m: int| i <= m < j ==> is_ascii_digit(s@[m]),
            digit_run(t) == j - i + digit_run(s@.skip(j as int)),
            !over ==> acc as int == digits_val(s@.subrange(i as int, j as int)),
            over ==> digits_val(s@.subrange(i as int, j as int)) > u64::MAX,
        decreases s@.len() - j,
    {
        let d: u8 = s[j] - 48;
        proof {
            let u = s@.skip(j as int);
            assert(u[0] == s@[j as int]);
            assert(u.skip(1) =~= s@.skip(j as int + 1));
            let prev = s@.subrange(i as int, j as int);
            let next = s@.subrange(i as int, j as int + 1);
            assert(next.take(next.len() - 1) =~= prev);
            assert(next[next.len() - 1] == s@[j as int]);
            assert(digits_val(next) == digits_val(prev) * 10 + d);
            if !over {
                lemma_shift_bound(acc as int, d as int, u64::MAX as int);
            }
        }
        if over || acc > (u64::MAX - d as u64) / 10 {
            over = true;
        } else {
            acc = acc * 10 + d as u64;
        }
        j = j + 1;
    }
    proof {
        let u = s@.skip(j as int);
        if j < s.len() {
            assert(u[0] == s@[j as int]);
        }
        assert(digit_run(u) == 0);
        assert(t.take((j - i) as int) =~= s@.subrange(i as int, j as int));
    }
    if j == i {
        None
    } else if over {
        None
    } else {
        Some((acc, j))
    }
}

/// Consume a digit run at `i` and succeed exactly when its value is `other`.
pub fn rm_int_prefix(s: &[u8], i: usize, other: u64) -> (r: Option<usize>)
    requires
        i <= s@.len(),
    ensures
        match r {
            Some(j) => i <= j <= s@.len() && strip_int(s@.skip(i as int), other as int) == Some(
                s@.skip(j as int),
            ),
            None => strip_int(s@.skip(i as int), other as int) is None,
        },
{
    match chomp_int(s, i) {
        Some((n, j)) => if n == other {
            proof {
                assert(s@.skip(i as int).skip((j - i) as int) =~= s@.skip(j as int));
            }
            Some(j)
        } else {
            None
        },
        None => None,
    }
}

/// Remove the structural prefix denoting `enc` from `s` starting at position
/// `i`, returning the position after it; mirror of [`strip_enc`].
#[verifier::loop_isolation(false)]
pub fn rm_enc_prefix(s: &[u8], i: usize, enc: &Encoding) -> (r: Option<usize>)
    requires
        i <= s@.len(),
    ensures
        match r {
            Some(j) => i <= j <= s@.len() && strip_enc(s@.skip(i as int), *enc) == Some(
                s@.skip(j as int),
            ),
            None => strip_enc(s@.skip(i as int), *enc) is None,
        },
    decreases *enc,
{
    match enc {
        Encoding::Char => strip_byte(s, i, 99),
        Encoding::Short => strip_byte(s, i, 115),
        Encoding::Int => strip_byte(s, i, 105),
        Encoding::Long => strip_byte(s, i, 108),
        Encoding::LongLong => strip_byte(s, i, 113),
        Encoding::UChar => strip_byte(s, i, 67),
        Encoding::UShort => strip_byte(s, i, 83),
        Encoding::UInt => strip_byte(s, i, 73),
        Encoding::ULong => strip_byte(s, i, 76),
        Encoding::ULongLong => strip_byte(s, i, 81),
        Encoding::Float => strip_byte(s, i, 102),
        Encoding::Double => strip_byte(s, i, 100),
        Encoding::Bool => strip_byte(s, i, 66),
        Encoding::Void => strip_byte(s, i, 118),
        Encoding::String => strip_byte(s, i, 42),
        Encoding::Object => strip_byte(s, i, 64),
        Encoding::Block => {
            let ghost t = s@.skip(i as int);
            if s.len() - i >= 2 && s[i] == 64 && s[i + 1] == 63 {
                proof {
                    assert(t.take(2) =~= seq![64u8, 63u8]);
                    assert(t.skip(2) =~= s@.skip(i as int + 2));
                }
                Some(i + 2)
            } else {
                proof {
                    if t.len() >= 2 {
                        assert(t.take(2)[0] == s@[i as int]);
                        assert(t.take(2)[1] == s@[i as int + 1]);
                    }
                }
                None
            }
        },
        Encoding::Class => strip_byte(s, i, 35),
        Encoding::Sel => strip_byte(s, i, 58),
        Encoding::Unknown => strip_byte(s, i, 63),
        Encoding::BitField(width) => match strip_byte(s, i, 98) {
            Some(j) => rm_int_prefix(s, j, *width as u64),
            None => None,
        },
        Encoding::Pointer(t) => match strip_byte(s, i, 94) {
            Some(j) => rm_enc_prefix(s, j, t),
            None => None,
        },
        Encoding::Array(len, item) => {
            let j0 = match strip_byte(s, i, 91) {
                Some(j) => j,
                None => {
                    return None;
                },
            };
            let j1 = match rm_int_prefix(s, j0, *len) {
                Some(j) => j,
                None => {
                    return None;
                },
            };
            let j2 = match rm_enc_prefix(s, j1, item) {
                Some(j) => j,
                None => {
                    return None;
                },
            };
            strip_byte(s, j2, 93)
        },
        Encoding::Struct(name, fields) => {
            let j0 = match strip_byte(s, i, 123) {
                Some(j) => j,
                None => {
                    return None;
                },
            };
            let j1 = match strip_bytes(s, j0, name) {
                Some(j) => j,
                None => {
                    return None;
                },
            };
            let j2 = match strip_byte(s, j1, 61) {
                Some(j) => j,
                None => {
                    return None;
                },
            };
            let mut j = j2;
            let mut k: usize = 0;
            while k < fields.len()
                invariant
                    i <= s@.len(),
                    j2 <= j <= s@.len(),
                    k <= fields@.len(),
                    strip_encs(s@.skip(j2 as int), fields@, 0) == strip_encs(
                        s@.skip(j as int),
                        fields@,
                        k as int,
                    ),
                decreases fields@.len() - k,
            {
                proof {
                    broadcast use vstd::std_specs::vec::group_vec_axioms;

                    assert(*fields == enc->Struct_1);
                    assert(decreases_to!(*enc => enc->Struct_1));
                    assert(decreases_to!(*fields => fields@));
                    assert(decreases_to!(fields@ => fields@[k as int]));
                }
                match rm_enc_prefix(s, j, &fields[k]) {
                    Some(j_next) => {
                        j = j_next;
                    },
                    None => {
                        return None;
                    },
                }
                k = k + 1;
            }
            strip_byte(s, j, 125)
        },
        Encoding::Union(name, members) => {
            let j0 = match strip_byte(s, i, 40) {
                Some(j) => j,
                None => {
                    return None;
                },
            };
            let j1 = match strip_bytes(s, j0, name) {
                Some(j) => j,
                None => {
                    return None;
                },
            };
            let j2 = match strip_byte(s, j1, 61) {
                Some(j) => j,
                None => {
                    return None;
                },
            };
            let mut j = j2;
            let mut k: usize = 0;
            while k < members.len()
                invariant
                    i <= s@.len(),
                    j2 <= j <= s@.len(),
                    k <= members@.len(),
                    strip_encs(s@.skip(j2 as int), members@, 0) == strip_encs(
                        s@.skip(j as int),
                        members@,
                        k as int,
                    ),
                decreases members@.len() - k,
            {
                proof {
                    broadcast use vstd::std_specs::vec::group_vec_axioms;

                    assert(*members == enc->Union_1);
                    assert(decreases_to!(*enc => enc->Union_1));
                    assert(decreases_to!(*members => members@));
                    assert(decreases_to!(members@ => members@[k as int]));
                }
                match rm_enc_prefix(s, j, &members[k]) {
                    Some(j_next) => {
                        j = j_next;
                    },
                    None => {
                        return None;
                    },
                }
                k = k + 1;
            }
            strip_byte(s, j, 41)
        },
    }
}

/// Decide whether the string `s` exactly denotes the encoding `enc`: strip
/// leading qualifiers, consume the structural prefix, and require that
/// nothing is left over.
pub fn eq_enc(s: &[u8], enc: &Encoding) -> (r: bool)
    ensures
        r == enc_matches(s@, *enc),
{
    let mut i: usize = 0;
    proof {
        assert(s@.skip(0) =~= s@);
    }
    while i < s.len() && is_qual_byte(s[i])
        invariant
            i <= s@.len(),
            qual_run(s@) == i + qual_run(s@.skip(i as int)),
        decreases s@.len() - i,
    {
        proof {
            let u = s@.skip(i as int);
            assert(u[0] == s@[i as int]);
            assert(u.skip(1) =~= s@.skip(i as int + 1));
        }
        i = i + 1;
    }
    proof {
        let u = s@.skip(i as int);
        if i < s.len() {
            assert(u[0] == s@[i as int]);
        }
        assert(qual_run(u) == 0);
    }
    match rm_enc_prefix(s, i, enc) {
        Some(j) => {
            proof {
                if j == s.len() {
                    assert(s@.skip(j as int) =~= Seq::<u8>::empty());
                } else {
                    assert(s@.skip(j as int).len() > 0);
                }
            }
            j == s.len()
        },
        None => false,
    }
}

} // verus!
