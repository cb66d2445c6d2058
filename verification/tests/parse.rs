use objc_encode::encoding::Encoding;
use objc_encode::parse::chomp_int;
use objc_encode::parse::eq_enc;
use objc_encode::parse::rm_enc_prefix;
use objc_encode::parse::rm_int_prefix;

#[test]
fn test_nested() {
    let enc = Encoding::Struct(
        "A".as_bytes().to_vec(),
        vec![
            Encoding::Struct("B".as_bytes().to_vec(), vec![Encoding::Char, Encoding::Int]),
            Encoding::Char,
            Encoding::Int,
        ],
    );
    assert!(eq_enc("{A={B=ci}ci}".as_bytes(), &enc));
    assert!(!eq_enc("{A={B=ci}ci".as_bytes(), &enc));
}

#[test]
fn test_bitfield() {
    assert!(eq_enc("b32".as_bytes(), &Encoding::BitField(32)));
    assert!(!eq_enc("b".as_bytes(), &Encoding::BitField(32)));
    assert!(!eq_enc("b-32".as_bytes(), &Encoding::BitField(32)));
}

#[test]
fn test_qualifiers() {
    assert!(eq_enc("Vv".as_bytes(), &Encoding::Void));
    assert!(eq_enc("r*".as_bytes(), &Encoding::String));
}

#[test]
fn test_unicode() {
    let fields = vec![Encoding::Char, Encoding::Int];
    assert!(eq_enc(
        "{☃=ci}".as_bytes(),
        &Encoding::Struct("☃".as_bytes().to_vec(), fields)
    ));
}

#[test]
fn test_scalar_codes() {
    assert!(eq_enc("c".as_bytes(), &Encoding::Char));
    assert!(eq_enc("s".as_bytes(), &Encoding::Short));
    assert!(eq_enc("i".as_bytes(), &Encoding::Int));
    assert!(eq_enc("l".as_bytes(), &Encoding::Long));
    assert!(eq_enc("q".as_bytes(), &Encoding::LongLong));
    assert!(eq_enc("C".as_bytes(), &Encoding::UChar));
    assert!(eq_enc("S".as_bytes(), &Encoding::UShort));
    assert!(eq_enc("I".as_bytes(), &Encoding::UInt));
    assert!(eq_enc("L".as_bytes(), &Encoding::ULong));
    assert!(eq_enc("Q".as_bytes(), &Encoding::ULongLong));
    assert!(eq_enc("f".as_bytes(), &Encoding::Float));
    assert!(eq_enc("d".as_bytes(), &Encoding::Double));
    assert!(eq_enc("B".as_bytes(), &Encoding::Bool));
    assert!(eq_enc("v".as_bytes(), &Encoding::Void));
    assert!(eq_enc("*".as_bytes(), &Encoding::String));
    assert!(eq_enc("@".as_bytes(), &Encoding::Object));
    assert!(eq_enc("@?".as_bytes(), &Encoding::Block));
    assert!(eq_enc("#".as_bytes(), &Encoding::Class));
    assert!(eq_enc(":".as_bytes(), &Encoding::Sel));
    assert!(eq_enc("?".as_bytes(), &Encoding::Unknown));
    assert!(!eq_enc("i".as_bytes(), &Encoding::Char));
    assert!(!eq_enc("@?".as_bytes(), &Encoding::Object));
    assert!(!eq_enc("@".as_bytes(), &Encoding::Block));
}

#[test]
fn test_pointer_and_array() {
    assert!(eq_enc("^i".as_bytes(), &Encoding::Pointer(Box::new(Encoding::Int))));
    assert!(eq_enc(
        "^^f".as_bytes(),
        &Encoding::Pointer(Box::new(Encoding::Pointer(Box::new(Encoding::Float))))
    ));
    assert!(!eq_enc("^".as_bytes(), &Encoding::Pointer(Box::new(Encoding::Int))));
    assert!(eq_enc(
        "[12^f]".as_bytes(),
        &Encoding::Array(12, Box::new(Encoding::Pointer(Box::new(Encoding::Float))))
    ));
    assert!(!eq_enc(
        "[12^f".as_bytes(),
        &Encoding::Array(12, Box::new(Encoding::Pointer(Box::new(Encoding::Float))))
    ));
    assert!(!eq_enc(
        "[13^f]".as_bytes(),
        &Encoding::Array(12, Box::new(Encoding::Pointer(Box::new(Encoding::Float))))
    ));
}

#[test]
fn test_union() {
    let u = Encoding::Union(
        "U".as_bytes().to_vec(),
        vec![Encoding::Char, Encoding::Int],
    );
    assert!(eq_enc("(U=ci)".as_bytes(), &u));
    assert!(!eq_enc("{U=ci}".as_bytes(), &u));
    assert!(!eq_enc("(U=ci".as_bytes(), &u));
    assert!(!eq_enc("(V=ci)".as_bytes(), &u));
}

#[test]
fn test_qualifier_runs() {
    assert!(eq_enc("rnNoORVi".as_bytes(), &Encoding::Int));
    assert!(eq_enc("i".as_bytes(), &Encoding::Int));
    assert!(eq_enc("RRRRv".as_bytes(), &Encoding::Void));
    assert!(!eq_enc("ir".as_bytes(), &Encoding::Int));
    assert!(!eq_enc("r".as_bytes(), &Encoding::Int));
}

#[test]
fn test_trailing_content_rejected() {
    assert!(!eq_enc("ix".as_bytes(), &Encoding::Int));
    assert!(!eq_enc("vv".as_bytes(), &Encoding::Void));
    assert!(!eq_enc(
        "{A=i}x".as_bytes(),
        &Encoding::Struct("A".as_bytes().to_vec(), vec![Encoding::Int])
    ));
    assert!(!eq_enc("b321".as_bytes(), &Encoding::BitField(32)));
}

#[test]
fn test_digit_values_not_strings() {
    // the parsed value is compared, not the digit string
    assert!(eq_enc("b032".as_bytes(), &Encoding::BitField(32)));
    assert!(eq_enc(
        "[02i]".as_bytes(),
        &Encoding::Array(2, Box::new(Encoding::Int))
    ));
    // a zero width accepts any run of zero digits
    assert!(eq_enc("b00".as_bytes(), &Encoding::BitField(0)));
    // a width too large for the integer range never parses
    assert!(!eq_enc(
        "b18446744073709551616".as_bytes(),
        &Encoding::BitField(0)
    ));
}

#[test]
fn test_empty_and_malformed() {
    assert!(!eq_enc("".as_bytes(), &Encoding::Int));
    assert!(!eq_enc("{=i}".as_bytes(), &Encoding::Struct("A".as_bytes().to_vec(), vec![Encoding::Int])));
    assert!(!eq_enc(
        "{A=i".as_bytes(),
        &Encoding::Struct("A".as_bytes().to_vec(), vec![Encoding::Int])
    ));
    assert!(!eq_enc(
        "{Ai}".as_bytes(),
        &Encoding::Struct("A".as_bytes().to_vec(), vec![Encoding::Int])
    ));
    assert!(!eq_enc(
        "{A=ii}".as_bytes(),
        &Encoding::Struct("A".as_bytes().to_vec(), vec![Encoding::Int])
    ));
}

#[test]
fn test_chomp_int() {
    assert_eq!(chomp_int("123abc".as_bytes(), 0), Some((123, 3)));
    assert_eq!(chomp_int("007".as_bytes(), 0), Some((7, 3)));
    assert_eq!(chomp_int("x123".as_bytes(), 0), None);
    assert_eq!(chomp_int("x123".as_bytes(), 1), Some((123, 4)));
    assert_eq!(chomp_int("".as_bytes(), 0), None);
    assert_eq!(chomp_int("99999999999999999999".as_bytes(), 0), None);
}

#[test]
fn test_rm_int_prefix() {
    assert_eq!(rm_int_prefix("32]".as_bytes(), 0, 32), Some(2));
    assert_eq!(rm_int_prefix("32]".as_bytes(), 0, 3), None);
    assert_eq!(rm_int_prefix("]".as_bytes(), 0, 0), None);
}

#[test]
fn test_rm_enc_prefix() {
    assert_eq!(rm_enc_prefix("ci".as_bytes(), 0, &Encoding::Char), Some(1));
    assert_eq!(rm_enc_prefix("ci".as_bytes(), 1, &Encoding::Int), Some(2));
    assert_eq!(rm_enc_prefix("ci".as_bytes(), 0, &Encoding::Int), None);
}
