use balanced_ternary::{Ternary, Tryte, tryte};
use std::str::FromStr;

#[test]
fn test_tryte() {
    let tryte = Tryte::<6>::from_i64(255);
    assert_eq!(tryte.to_i64(), 255);
    assert_eq!(tryte.to_string(), "+00++0");

    let tryte = Tryte::<6>::from_i64(16);
    assert_eq!(tryte.to_i64(), 16);
    assert_eq!(tryte.to_string(), "00+--+");

    assert_eq!(Tryte::<6>::maximum().to_string(), "++++++");
    assert_eq!(Tryte::<6>::maximum().to_i64(), 364);
    assert_eq!(Tryte::<6>::minimum().to_string(), "------");
    assert_eq!(Tryte::<6>::minimum().to_i64(), -364);
    assert_eq!(Tryte::<6>::zero().to_string(), "000000");
    assert_eq!(Tryte::<6>::zero().to_i64(), 0);
}

#[test]
fn test_tryte_from_str() {
    let tryte = Tryte::<6>::from_str("+-0").unwrap();
    assert_eq!(tryte.to_string(), "000+-0");

    assert!(Tryte::<6>::from_str("+-x").is_err());
}

#[test]
fn test_tryte_shu() {
    let t = Tryte::<3>::parse("-0+");

    assert_eq!(t.shu_up().to_string(), "0+-");
    assert_eq!(t.shu_up().shu_up().to_string(), "+-0");
    assert_eq!(t.shu_up().shu_up().shu_up().to_string(), "-0+");

    assert_eq!(t.shu_down().to_string(), "+-0");
    assert_eq!(t.shu_up().shu_down(), t);
    assert_eq!(t.shu_down().shu_up(), t);
}

#[test]
fn test_tryte_consensus() {
    let a = Tryte::<6>::parse("++00--");
    let b = Tryte::<6>::parse("+0+0-0");
    assert_eq!(a.consensus(b).to_string(), "+000-0");

    assert_eq!(a.consensus(a), a);

    let neg_a = Tryte::<6>::parse("--00++");
    assert_eq!(a.consensus(neg_a), Tryte::<6>::zero());
}

#[test]
fn test_tryte_accept_anything() {
    let a = Tryte::<6>::parse("000---");
    let b = Tryte::<6>::parse("+++000");
    assert_eq!(a.accept_anything(b).to_string(), "+++---");

    assert_eq!(a.accept_anything(Tryte::<6>::zero()), a);
    assert_eq!(Tryte::<6>::zero().accept_anything(a), a);

    let pos = Tryte::<3>::parse("00+");
    let neg = Tryte::<3>::parse("00-");
    assert_eq!(pos.accept_anything(neg), Tryte::<3>::zero());
}

#[test]
fn test_tryte_shl_shr() {
    let t = Tryte::<6>::from_i64(5);
    assert_eq!((t << 1usize).to_string(), "00+--0");
    assert_eq!((t << 3usize).to_string(), "+--000");
    assert_eq!((t << 6usize), Tryte::<6>::zero());
    assert_eq!((t << 7usize), Tryte::<6>::zero());

    assert_eq!((t >> 1usize).to_string(), "0000+-");
    assert_eq!((t >> 6usize), Tryte::<6>::zero());

    let t2 = Tryte::<6>::from_i64(9);
    assert_eq!((t2 << 1usize >> 1usize), t2);
}

#[test]
fn test_tryte_shr_signed() {
    assert_eq!(Tryte::<6>::from_i64(5).shr_signed(1).to_i64(), 1);
    assert_eq!(Tryte::<6>::from_i64(-5).shr_signed(1).to_i64(), -2);
    assert_eq!(Tryte::<6>::from_i64(-7).shr_signed(1).to_i64(), -3);
    assert_eq!(Tryte::<6>::from_i64(9).shr_signed(1).to_i64(), 3);
    assert_eq!(Tryte::<6>::from_i64(-9).shr_signed(1).to_i64(), -3);
    assert_eq!(Tryte::<6>::from_i64(5).shr_signed(3).to_i64(), 0);
    assert_eq!(Tryte::<6>::from_i64(-1).shr_signed(6).to_i64(), -1);
    assert_eq!(Tryte::<6>::from_i64(42).shr_signed(0).to_i64(), 42);
}

#[test]
fn test_tryte_checked_saturating() {
    assert_eq!(Tryte::<6>::from_i64(300).checked_add(Tryte::<6>::from_i64(100)), None);
    assert_eq!(Tryte::<6>::from_i64(-300).checked_add(Tryte::<6>::from_i64(-100)), None);
    assert_eq!(
        Tryte::<6>::from_i64(100).checked_add(Tryte::<6>::from_i64(100)),
        Some(Tryte::<6>::from_i64(200))
    );

    assert_eq!(Tryte::<6>::from_i64(-300).checked_sub(Tryte::<6>::from_i64(100)), None);
    assert_eq!(
        Tryte::<6>::from_i64(100).checked_sub(Tryte::<6>::from_i64(50)),
        Some(Tryte::<6>::from_i64(50))
    );

    assert_eq!(Tryte::<6>::from_i64(100).checked_mul(Tryte::<6>::from_i64(100)), None);
    assert_eq!(
        Tryte::<6>::from_i64(10).checked_mul(Tryte::<6>::from_i64(10)),
        Some(Tryte::<6>::from_i64(100))
    );

    assert_eq!(Tryte::<6>::from_i64(300).saturating_add(Tryte::<6>::from_i64(100)), Tryte::<6>::maximum());
    assert_eq!(Tryte::<6>::from_i64(-300).saturating_add(Tryte::<6>::from_i64(-100)), Tryte::<6>::minimum());
    assert_eq!(Tryte::<6>::from_i64(100).saturating_add(Tryte::<6>::from_i64(100)), Tryte::<6>::from_i64(200));

    assert_eq!(Tryte::<6>::from_i64(-300).saturating_sub(Tryte::<6>::from_i64(100)), Tryte::<6>::minimum());

    assert_eq!(Tryte::<6>::from_i64(100).saturating_mul(Tryte::<6>::from_i64(100)), Tryte::<6>::maximum());
    assert_eq!(Tryte::<6>::from_i64(-100).saturating_mul(Tryte::<6>::from_i64(100)), Tryte::<6>::minimum());
}

#[test]
fn tryte_i64_round_trip_and_wrap() {
    for v in [-364i64, -100, -1, 0, 1, 100, 364] {
        assert_eq!(Tryte::<6>::from_i64(v).to_i64(), v);
    }
    // 365 lies outside six trits and wraps to -364
    assert_eq!(Tryte::<6>::from_i64(365).to_i64(), -364);
    assert_eq!((Tryte::<6>::from_i64(364) + Tryte::<6>::from_i64(1)).to_i64(), -364);
}

#[test]
fn tryte_parse_and_free_function() {
    assert_eq!(tryte("+-0").to_i64(), 6);
    assert_eq!(tryte("+-0").to_string(), "000+-0");
    let t = Tryte::<6>::from_ternary(&Ternary::parse("+-0"));
    assert_eq!(t.to_ternary().to_string(), "000+-0");
}
