use balanced_ternary::{Digit, Ternary, Tryte, ter};
use std::ops::{BitAnd, BitOr, BitXor, Mul, Not};
use std::str::FromStr;

#[test]
fn test_ternary() {
    let repr5 = Ternary::new(vec![Digit::Pos, Digit::Neg, Digit::Neg]);
    assert_eq!(repr5.to_dec(), 5);
    let repr5 = Ternary::from_dec(5);
    assert_eq!(repr5.to_dec(), 5);

    let repr13 = Ternary::new(vec![Digit::Pos, Digit::Pos, Digit::Pos]);
    assert_eq!(repr13.to_dec(), 13);

    let repr14 = Ternary::parse("+---");
    let repr15 = Ternary::parse("+--0");
    assert_eq!(repr14.to_dec(), 14);
    assert_eq!(repr15.to_dec(), 15);
    assert_eq!(repr14.to_string(), "+---");
    assert_eq!(repr15.to_string(), "+--0");

    let repr120 = Ternary::from_dec(120);
    assert_eq!(repr120.to_dec(), 120);
    assert_eq!(repr120.to_string(), "++++0");
    let repr121 = Ternary::from_dec(121);
    assert_eq!(repr121.to_dec(), 121);
    assert_eq!(repr121.to_string(), "+++++");

    let repr_neg_5 = Ternary::parse("-++");
    assert_eq!(repr_neg_5.to_dec(), -5);
    assert_eq!(repr_neg_5.to_string(), "-++");

    let repr_neg_5 = Ternary::from_dec(-5);
    assert_eq!(repr_neg_5.to_dec(), -5);
    assert_eq!(repr_neg_5.to_string(), "-++");

    let repr_neg_121 = Ternary::from_dec(-121);
    assert_eq!(repr_neg_121.to_dec(), -121);
    assert_eq!(repr_neg_121.to_string(), "-----");

    let test = Ternary::from_dec(18887455);
    assert_eq!(test.to_dec(), 18887455);
    assert_eq!(test.to_string(), "++00--0--+-0++0+");

    let unbalanced = Ternary::from_unbalanced("12");
    assert_eq!(unbalanced.to_dec(), 5);
    assert_eq!(unbalanced.to_string(), "+--");

    let unbalanced = Ternary::from_unbalanced("-12");
    assert_eq!(unbalanced.to_dec(), -5);
    assert_eq!(unbalanced.to_string(), "-++");

    let unbalanced = Ternary::from_dec(121);
    assert_eq!(unbalanced.to_unbalanced(), "11111");
    assert_eq!(unbalanced.to_string(), "+++++");
}

#[test]
fn test_each() {
    let ternary = Ternary::parse("+0-");
    assert_eq!(ternary.each(Digit::possibly).to_string(), "++-");
}

fn test_ternary_eq(a: Ternary, b: &str) {
    let repr = Ternary::parse(b);
    assert_eq!(a.to_string(), repr.to_string());
}

fn test_binary_op(a: &Ternary, f: impl Fn(Digit, Digit) -> Digit, b: &Ternary, c: &str) {
    test_ternary_eq(a.each_zip(f, b.clone()), c);
}

#[test]
fn test_operations() {
    let short = Ternary::parse("-0+");
    let long = Ternary::parse("---000+++");
    let other = Ternary::parse("-0+-0+-0+");

    // K3
    test_ternary_eq(short.each(Digit::not), "+0-");
    test_binary_op(&long, Digit::bitand, &other, "----00-0+");
    test_binary_op(&long, Digit::bitor, &other, "-0+00++++");
    test_binary_op(&long, Digit::bitxor, &other, "-0+000+0-");
    test_binary_op(&long, Digit::k3_equiv, &other, "+0-000-0+");
    test_binary_op(&long, Digit::k3_imply, &other, "+++00+-0+");

    // HT
    test_ternary_eq(short.each(Digit::ht_not), "+--");
    test_binary_op(&long, Digit::ht_imply, &other, "+++-++-0+");

    // BI3
    test_binary_op(&long, Digit::bi3_and, &other, "-0-000-0+");
    test_binary_op(&long, Digit::bi3_or, &other, "-0+000+0+");
    test_binary_op(&long, Digit::bi3_imply, &other, "+0+000-0+");

    // L3
    test_ternary_eq(short.each(Digit::possibly), "-++");
    test_ternary_eq(short.each(Digit::necessary), "--+");
    test_ternary_eq(short.each(Digit::contingently), "-+-");
    test_binary_op(&long, Digit::l3_imply, &other, "+++0++-0+");

    // PARA / RM3
    test_binary_op(&long, Digit::rm3_imply, &other, "+++-0+--+");
    test_binary_op(&long, Digit::para_imply, &other, "+++-0+-0+");

    // Other operations
    test_ternary_eq(short.each(Digit::post), "0+-");
    test_ternary_eq(short.each(Digit::pre), "+-0");
    test_ternary_eq(short.each(Digit::absolute_positive), "+0+");
    test_ternary_eq(short.each(Digit::positive), "00+");
    test_ternary_eq(short.each(Digit::not_negative), "0++");
    test_ternary_eq(short.each(Digit::not_positive), "--0");
    test_ternary_eq(short.each(Digit::negative), "-00");
    test_ternary_eq(short.each(Digit::absolute_negative), "-0-");

    test_binary_op(&long, Digit::mul, &other, "+0-000-0+");
}

#[test]
fn test_from_str() {
    let ternary = Ternary::from_str("+-0").unwrap();
    assert_eq!(ternary.to_string(), "+-0");

    assert!(Ternary::from_str("+-x").is_err());

    let tryte = <Tryte<6>>::from_str("+-0").unwrap();
    assert_eq!(tryte.to_string(), "000+-0");
    assert!(<Tryte<6>>::from_str("+-x").is_err());
}

#[test]
fn test_ordering() {
    assert!(ter("-+") < ter("0"));
    assert!(ter("0") < ter("++"));
}

#[test]
fn test_ordering_additional() {
    // Validate comparisons across a range of values
    assert!(ter("--") < ter("-0"));
    assert!(ter("-0") < ter("-"));
    assert!(ter("+") < ter("+-"));
    assert!(ter("+-") < ter("++"));

    // Sorting should arrange values by their decimal value
    let mut values = vec![ter("+"), ter("--"), ter("+-"), ter("-"), ter("0"), ter("-0"), ter("++")];
    values.sort_by(|a, b| a.partial_cmp(b).unwrap());
    let expected = vec![ter("--"), ter("-0"), ter("-"), ter("0"), ter("+"), ter("+-"), ter("++")];
    assert_eq!(values, expected);
}

#[test]
fn test_iterators() {
    let ternary = Ternary::parse("+0-");
    let expected = vec![Digit::Pos, Digit::Zero, Digit::Neg];
    assert_eq!(ternary.iter().cloned().collect::<Vec<_>>(), expected);
    let collected: Vec<Digit> = Ternary::parse("+0-").into_iter().collect();
    assert_eq!(collected, expected);
}

#[test]
fn test_shu_up_down() {
    let t = ter("-0+");
    assert_eq!(t.shu_up().to_string(), "0+-");
    assert_eq!(t.shu_up().shu_up().to_string(), "+-0");
    // Three shu_up steps = identity
    assert_eq!(t.shu_up().shu_up().shu_up().to_string(), "-0+");

    // SHU↓ is the inverse of SHU↑
    assert_eq!(t.shu_down().to_string(), "+-0");
    assert_eq!(t.shu_up().shu_down().to_string(), "-0+");

    // Two shu_up = one shu_down (period 3)
    assert_eq!(t.shu_up().shu_up().to_string(), t.shu_down().to_string());
}

#[test]
fn test_consensus() {
    let a = ter("++00--");
    let b = ter("+0+0-0");
    assert_eq!(a.consensus(&b).to_string(), "+000-0");

    // Full agreement = identity
    assert_eq!(a.consensus(&a).to_string(), a.to_string());

    // Full disagreement = all zeros
    let neg_a = ter("--00++");
    assert_eq!(a.consensus(&neg_a).to_string(), "000000");
}

#[test]
fn test_accept_anything() {
    // Non-overlapping fields merge losslessly
    let a = ter("000---");
    let b = ter("+++000");
    assert_eq!(a.accept_anything(&b).to_string(), "+++---");

    // Digit::Zero is transparent (pass-through); full width preserved
    let z = ter("000000");
    assert_eq!(a.accept_anything(&z).to_string(), a.to_string());

    // Conflict: opposing non-zero trits cancel
    let pos = ter("+");
    let neg = ter("-");
    assert_eq!(pos.accept_anything(&neg).to_string(), "0");

    // Self-merge = identity
    assert_eq!(a.accept_anything(&a).to_string(), a.to_string());
}

#[test]
fn test_shr_signed() {
    assert_eq!(ter("+--").shr_signed(1).to_dec(), 1);
    assert_eq!(ter("-++").shr_signed(1).to_dec(), -2);
    assert_eq!(ter("-+-").shr_signed(1).to_dec(), -3);
    assert_eq!(ter("+-0").shr_signed(1).to_dec(), 2);
    assert_eq!(ter("0").shr_signed(1).to_dec(), 0);
    assert_eq!(ter("+--").shr_signed(3).to_dec(), 0);
    assert_eq!(ter("-++").shr_signed(3).to_dec(), -1);
    assert_eq!(ter("+--").shr_signed(0).to_dec(), 5);
    assert_eq!(ter("+-++").shr_signed(2).to_dec(), 2);
}

#[test]
fn test_ternary_ops() {
    let repr9 = Ternary::parse("+00");
    let repr4 = Ternary::parse("++");
    let repr13 = &repr9 + &repr4;
    let repr17 = &repr13 + &repr4;
    let repr34 = &repr17 + &repr17;

    assert_eq!(repr13.to_string(), "+++");
    assert_eq!(repr17.to_string(), "+-0-");
    assert_eq!(repr34.to_string(), "++-+");

    let repr30 = &repr34 - &repr4;
    assert_eq!(repr30.to_dec(), 30);
    assert_eq!(repr30.to_string(), "+0+0");

    let repr120 = &repr30 * &repr4;
    assert_eq!(repr120.to_dec(), 120);
    assert_eq!(repr120.to_string(), "++++0");

    let repr_neg120 = -&repr120;
    assert_eq!(repr_neg120.to_dec(), -120);
    assert_eq!(repr_neg120.to_string(), "----0");

    let bitwise = &Ternary::parse("++00") & &Ternary::parse("0000");
    assert_eq!(bitwise.to_string(), "0000");

    let bitwise = &Ternary::parse("++00") & &Ternary::parse("0+00");
    assert_eq!(bitwise.to_string(), "0+00");

    let bitwise = &Ternary::parse("+000") | &Ternary::parse("000-");
    assert_eq!(bitwise.to_string(), "+000");

    let bitwise = &Ternary::parse("+000") & &Ternary::parse("000-");
    assert_eq!(bitwise.to_string(), "000-");

    let bitwise = &Ternary::parse("+000") | &Ternary::parse("000+");
    assert_eq!(bitwise.to_string(), "+00+");
}

#[test]
fn test_shift_ops() {
    let t = Ternary::parse("+0-");
    assert_eq!((&t << 2).to_string(), "+0-00");
    let back = &(&t << 2) >> 2;
    assert_eq!(back.to_string(), "+0-");
    let zero = &t >> 5;
    assert_eq!(zero.to_string(), "0");
}

#[test]
fn conversions_through_from() {
    let t = Ternary::from("+-0");
    assert_eq!(t.to_dec(), 6);
    let t = Ternary::from(String::from("+-0"));
    assert_eq!(t.to_dec(), 6);
    let t = Ternary::from(-13i64);
    assert_eq!(t.to_string(), "---");
    assert_eq!(String::from(t), "---");
}

#[test]
fn canonical_form_is_unique() {
    // Leading zeros do not change the value; from_dec gives the trimmed digits.
    let padded = ter("00+-");
    assert_eq!(Ternary::from_dec(padded.to_dec()).to_string(), padded.trim().to_string());
    assert_eq!(Ternary::from_dec(0).to_string(), "0");
}

#[test]
fn division_truncates_toward_zero() {
    let seven = Ternary::from_dec(7);
    let two = Ternary::from_dec(2);
    assert_eq!((&seven / &two).to_dec(), 3);
    assert_eq!((&(-&seven) / &two).to_dec(), -3);
}

#[test]
fn heptavintimal_round_trip() {
    let t = Ternary::from_dec(18887455);
    let text = t.to_heptavintimal();
    let back = Ternary::from_heptavintimal(&text).unwrap();
    assert_eq!(back.to_dec(), 18887455);
    assert_eq!(Ternary::parse("+++").to_heptavintimal(), "Z");
    assert_eq!(Ternary::parse("---").to_heptavintimal(), "0");
    assert_eq!(Ternary::parse("000").to_heptavintimal(), "D");
    assert!(Ternary::from_heptavintimal("I").is_none());
}
