//! The structured representation of Objective-C type encodings, together with
//! the canonical string form of each encoding.

use vstd::prelude::*;

verus! {

/// A structured Objective-C type encoding: scalar kinds, and the recursive
/// kinds (bitfields, pointers, arrays, structs and unions).
///
/// Struct and union names are kept as raw bytes; names are compared
/// byte-for-byte, never normalized.
pub enum Encoding {
    Char,
    Short,
    Int,
    Long,
    LongLong,
    UChar,
    UShort,
    UInt,
    ULong,
    ULongLong,
    Float,
    Double,
    Bool,
    Void,
    String,
    Object,
    Block,
    Class,
    Sel,
    Unknown,
    BitField(u32),
    Pointer(Box<Encoding>),
    Array(u64, Box<Encoding>),
    Struct(Vec<u8>, Vec<Encoding>),
    Union(Vec<u8>, Vec<Encoding>),
}

/// The qualifier characters (const/in/inout/out/bycopy/byref/oneway); they
/// carry no structural meaning and are ignored by the matcher.
pub open spec fn is_qualifier(c: u8) -> bool {
    c == 114u8 || c == 110u8 || c == 78u8 || c == 111u8 || c == 79u8 || c == 82u8 || c == 86u8
}

/// Whether `c` is an ASCII decimal digit.
pub open spec fn is_ascii_digit(c: u8) -> bool {
    48u8 <= c && c <= 57u8
}

/// The decimal digits of `n`, most significant first, without leading zeros
/// (`0` is written as the single digit `0`).
pub open spec fn dec_digits(n: nat) -> Seq<u8>
    decreases n,
{
    if n < 10 {
        seq![(48u8 + n) as u8]
    } else {
        dec_digits(n / 10).push((48u8 + n % 10) as u8)
    }
}

/// The canonical string form of an encoding, as the Objective-C compiler
/// writes it: one-character scalar codes, `@?` for blocks, `b<width>`,
/// `^<target>`, `[<len><element>]`, `{<name>=<fields>}`, `(<name>=<members>)`.
pub open spec fn canonical(e: Encoding) -> Seq<u8>
    decreases e, 0int, 0int,
{
    match e {
        Encoding::Char => seq![99u8],
        Encoding::Short => seq![115u8],
        Encoding::Int => seq![105u8],
        Encoding::Long => seq![108u8],
        Encoding::LongLong => seq![113u8],
        Encoding::UChar => seq![67u8],
        Encoding::UShort => seq![83u8],
        Encoding::UInt => seq![73u8],
        Encoding::ULong => seq![76u8],
        Encoding::ULongLong => seq![81u8],
        Encoding::Float => seq![102u8],
        Encoding::Double => seq![100u8],
        Encoding::Bool => seq![66u8],
        Encoding::Void => seq![118u8],
        Encoding::String => seq![42u8],
        Encoding::Object => seq![64u8],
        Encoding::Block => seq![64u8, 63u8],
        Encoding::Class => seq![35u8],
        Encoding::Sel => seq![58u8],
        Encoding::Unknown => seq![63u8],
        Encoding::BitField(width) => seq![98u8] + dec_digits(width as nat),
        Encoding::Pointer(t) => seq![94u8] + canonical(*t),
        Encoding::Array(len, item) => seq![91u8] + dec_digits(len as nat) + canonical(*item)
            + seq![93u8],
        Encoding::Struct(name, fields) => seq![123u8] + name@ + seq![61u8] + canonical_all(
            fields@,
            0,
        ) + seq![125u8],
        Encoding::Union(name, members) => seq![40u8] + name@ + seq![61u8] + canonical_all(
            members@,
            0,
        ) + seq![41u8],
    }
}

/// The concatenation of the canonical forms of `es[k..]`.
pub open spec fn canonical_all(es: Seq<Encoding>, k: int) -> Seq<u8>
    decreases es, es.len() - k, 1int,
{
    if 0 <= k < es.len() {
        canonical(es[k]) + canonical_all(es, k + 1)
    } else {
        Seq::empty()
    }
}

/// The canonical form of any encoding is nonempty, and its first character is
/// neither a digit nor a qualifier.
pub proof fn lemma_canonical_head(e: Encoding)
    ensures
        canonical(e).len() > 0,
        !is_ascii_digit(canonical(e)[0]),
        !is_qualifier(canonical(e)[0]),
{
    match e {
        Encoding::BitField(width) => {
            assert(canonical(e)[0] == 98u8);
        },
        Encoding::Pointer(t) => {
            assert(canonical(e)[0] == 94u8);
        },
        Encoding::Array(len, item) => {
            assert(canonical(e)[0] == 91u8);
        },
        Encoding::Struct(name, fields) => {
            assert(canonical(e)[0] == 123u8);
        },
        Encoding::Union(name, members) => {
            assert(canonical(e)[0] == 40u8);
        },
        _ => {},
    }
}

} // verus!
