use std::ops::{BitAnd, BitOr, BitXor};
use balanced_ternary::{
    BTer27, BTer9, BctTer32, DataTernary, Digit, IlBctTer32, IlTer40, Ter40, Ternary, TritsChunk,
    UTer27, UTer9, dter,
};

#[test]
fn ter40_each_roundtrip() {
    let t = Ter40::from_dec(42);
    assert_eq!(t.each(|d| -d).to_dec(), -42);
    assert_eq!(Ter40::from_dec(0).each(|d| -d).to_dec(), 0);
}

#[test]
fn ter40_each_zip_bitwise() {
    let a = Ter40::from_ternary(Ternary::parse("++-"));
    let b = Ter40::from_ternary(Ternary::parse("+-+"));
    assert_eq!((a & b).to_ternary().trim().to_string(), "+--");
    assert_eq!((a | b).to_ternary().trim().to_string(), "+++");
    assert_eq!((a ^ b).to_ternary().trim().to_string(), "-++");
}

#[test]
fn ter40_fast_logical_ops() {
    let values: &[i64] = &[0, 1, -1, 13, -5, 12_345_678, -9_876_543, 999_999_999, -1_000_000_000];
    for &a_v in values {
        for &b_v in values {
            let a = Ter40::from_dec(a_v);
            let b = Ter40::from_dec(b_v);
            let expected_and = a.each_zip(Digit::bitand, b).to_dec();
            assert_eq!((a & b).to_dec(), expected_and, "AND({a_v},{b_v})");
            let expected_or = a.each_zip(Digit::bitor, b).to_dec();
            assert_eq!((a | b).to_dec(), expected_or, "OR({a_v},{b_v})");
            let expected_xor = a.each_zip(Digit::bitxor, b).to_dec();
            assert_eq!((a ^ b).to_dec(), expected_xor, "XOR({a_v},{b_v})");
            let expected_con = a.each_zip(Digit::consensus, b).to_dec();
            assert_eq!(a.consensus(b).to_dec(), expected_con, "consensus({a_v},{b_v})");
            let expected_aa = a.each_zip(Digit::accept_anything, b).to_dec();
            assert_eq!(a.accept_anything(b).to_dec(), expected_aa, "accept_anything({a_v},{b_v})");
        }
    }
}

#[test]
fn ter40_to_digits_length() {
    assert_eq!(Ter40::from_dec(0).to_digits().len(), 40);
    assert_eq!(Ter40::from_dec(1).to_digits().len(), 40);
    assert_eq!(Ter40::from_dec(-1).to_digits().len(), 40);
}

#[test]
fn ter40_digit_index() {
    let t = Ter40::from_ternary(Ternary::parse("+00-"));
    assert_eq!(t.digit(0).unwrap(), Digit::Neg);
    assert_eq!(t.digit(3).unwrap(), Digit::Pos);
    assert!(t.digit(40).is_none());
}

#[test]
fn single_chunk_creation() {
    let ternary = Ternary::parse("+-0-+");
    let data = DataTernary::from_ternary(ternary.clone());
    assert_eq!(data.chunk_count(), 1);
    assert_eq!(data.to_ternary(), ternary);
}

#[test]
fn round_trip() {
    let ternary = Ternary::parse("+0-0++-");
    let data = DataTernary::from_ternary(ternary.clone());
    assert_eq!(data.to_ternary(), ternary);
}

#[test]
fn data_ternary_trims_leading_zeros() {
    let data = DataTernary::from_ternary(Ternary::parse("000+-"));
    assert_eq!(data.to_ternary().to_string(), "+-");
    assert_eq!(data.to_dec(), 2);
    assert_eq!(DataTernary::from_dec(-121).to_ternary().to_string(), "-----");
    assert_eq!(dter("+-0-+0").chunk_count(), 2);
    assert_eq!(dter("+-0-+0").to_dec(), Ternary::parse("+-0-+0").to_dec());
}

#[test]
fn trits_chunk_values() {
    let c = TritsChunk::from_dec(121);
    assert_eq!(c.to_dec(), 121);
    assert_eq!(c.to_ternary().to_string(), "+++++");
    assert_eq!(TritsChunk::from_dec(-5).to_fixed_ternary().to_string(), "00-++");
    assert_eq!(TritsChunk::from_ternary(Ternary::parse("+-")).to_dec(), 2);
}

#[test]
fn ilter40_logical_and_arith() {
    let values: &[i64] = &[0, 1, -1, 13, -5, 12_345_678, -9_876_543, 999_999_999];
    for &a_v in values {
        for &b_v in values {
            let a = IlTer40::from_dec(a_v);
            let b = IlTer40::from_dec(b_v);
            let ta = Ter40::from_dec(a_v);
            let tb = Ter40::from_dec(b_v);
            assert_eq!((a & b).to_dec(), (ta & tb).to_dec(), "AND({a_v},{b_v})");
            assert_eq!((a | b).to_dec(), (ta | tb).to_dec(), "OR({a_v},{b_v})");
            assert_eq!((a ^ b).to_dec(), (ta ^ tb).to_dec(), "XOR({a_v},{b_v})");
            assert_eq!(a.il_consensus(b).to_dec(), ta.consensus(tb).to_dec(), "consensus");
            assert_eq!(a.il_accept_anything(b).to_dec(), ta.accept_anything(tb).to_dec(), "aa");
            assert_eq!((a + b).to_dec(), a_v + b_v, "ADD({a_v},{b_v})");
            assert_eq!((a - b).to_dec(), a_v - b_v, "SUB({a_v},{b_v})");
            assert_eq!((-a).to_dec(), -a_v, "NEG({a_v})");
        }
    }
}

#[test]
fn il_roundtrip() {
    for v in [-13i64, -5, -1, 0, 1, 5, 13, 42, 12345, -12345] {
        assert_eq!(IlBctTer32::from_dec(v).to_dec(), v, "roundtrip failed for {v}");
    }
}

#[test]
fn il_constants() {
    assert_eq!(IlBctTer32::zero().to_dec(), 0);
    let max_val = IlBctTer32::maximum().to_dec();
    assert!(max_val > 0);
    assert_eq!(IlBctTer32::minimum().to_dec(), -max_val);
    assert_eq!(IlBctTer32::zero().raw(), 0x5555_5555_5555_5555);
    assert_eq!(IlBctTer32::maximum().raw(), 0xAAAA_AAAA_AAAA_AAAA);
    assert_eq!(IlBctTer32::minimum().raw(), 0);
}

#[test]
fn il_bitwise_ops() {
    let a = IlBctTer32::from_dec(13);
    let b = IlBctTer32::from_dec(-5);
    assert_eq!((a & b).to_dec(), -5);
    assert_eq!((a | b).to_dec(), 13);
    assert_eq!((a ^ b).to_dec(), 5);
    assert_eq!((-a).to_dec(), -13);
    assert_eq!(a.il_consensus(b).to_dec(), 4);
    assert_eq!(a.il_accept_anything(IlBctTer32::zero()), a);
    assert_eq!(a.il_accept_anything(-a), IlBctTer32::zero());
}

#[test]
fn il_shifts() {
    assert_eq!((IlBctTer32::from_dec(1) << 1usize).to_dec(), 3);
    assert_eq!((IlBctTer32::from_dec(1) << 2usize).to_dec(), 9);
    assert_eq!((IlBctTer32::from_dec(9) >> 1usize).to_dec(), 3);
    assert_eq!((IlBctTer32::from_dec(9) >> 2usize).to_dec(), 1);
    assert_eq!((IlBctTer32::from_dec(1) << 32usize), IlBctTer32::zero());
    assert_eq!((IlBctTer32::from_dec(1) >> 32usize), IlBctTer32::zero());
}

#[test]
fn il_bct_conversion_roundtrip() {
    for v in [-99i64, -13, -5, 0, 5, 13, 42, 99, 12345] {
        let il = IlBctTer32::from_dec(v);
        let bct: BctTer32 = il.into();
        let back: IlBctTer32 = bct.into();
        assert_eq!(bct.to_dec(), v, "to_bct failed for {v}");
        assert_eq!(back.to_dec(), v, "from_bct roundtrip failed for {v}");
        assert_eq!(il, back, "interleaved bits differ for {v}");
    }
}

#[test]
fn il_matches_bct_ops() {
    let vals = [-13i64, -5, -1, 0, 1, 5, 13];
    for &a in &vals {
        for &b in &vals {
            let ia = IlBctTer32::from_dec(a);
            let ib = IlBctTer32::from_dec(b);
            let ba = BctTer32::from_dec(a);
            let bb = BctTer32::from_dec(b);
            assert_eq!((ia & ib).to_dec(), (ba & bb).to_dec(), "AND mismatch a={a} b={b}");
            assert_eq!((ia | ib).to_dec(), (ba | bb).to_dec(), "OR  mismatch a={a} b={b}");
            assert_eq!((ia ^ ib).to_dec(), (ba ^ bb).to_dec(), "XOR mismatch a={a} b={b}");
            assert_eq!((-ia).to_dec(), (-ba).to_dec(), "NEG mismatch a={a}");
            assert_eq!(ia.il_consensus(ib).to_dec(), ba.bct_consensus(bb).to_dec(), "consensus mismatch a={a} b={b}");
            assert_eq!(ia.il_accept_anything(ib).to_dec(), ba.bct_accept_anything(bb).to_dec(), "accept_anything mismatch a={a} b={b}");
        }
    }
}

#[test]
fn uter9_roundtrip() {
    for v in [0u32, 1, 2, 9, 42, 100, 9841, 19682] {
        assert_eq!(UTer9::from_dec(v).to_dec(), v, "UTer9 roundtrip {v}");
    }
}

#[test]
fn uter9_add_matches_naive() {
    for a in [0u32, 1, 5, 42, 100, 9840] {
        for b in [0u32, 1, 5, 42, 100] {
            let expected = a + b;
            let got = (UTer9::from_dec(a) + UTer9::from_dec(b)).to_dec();
            assert_eq!(got, expected, "UTer9 add {a}+{b}");
        }
    }
}

#[test]
fn uter27_roundtrip() {
    for v in [0u64, 1, 42, 1_000_000, 7_625_597_484_986] {
        assert_eq!(UTer27::from_dec(v).to_dec(), v, "UTer27 roundtrip {v}");
    }
}

#[test]
fn uter27_add_matches_naive() {
    for a in [0u64, 1, 5, 42, 1_000_000] {
        for b in [0u64, 1, 5, 42, 1_000_000] {
            assert_eq!((UTer27::from_dec(a) + UTer27::from_dec(b)).to_dec(), a + b);
        }
    }
}

#[test]
fn uter_add_wraps_and_sub_undoes_add() {
    assert_eq!((UTer9::from_dec(19682) + UTer9::from_dec(1)).to_dec(), 0);
    assert_eq!((UTer9::from_dec(0) - UTer9::from_dec(1)).to_dec(), 19682);
    for a in [0u32, 7, 19682] {
        for b in [0u32, 5, 19000] {
            let s = UTer9::from_dec(a) + UTer9::from_dec(b);
            assert_eq!((s - UTer9::from_dec(b)).to_dec(), a);
        }
    }
    assert_eq!(UTer9::from_dec(20000).to_dec(), 317);
    assert_eq!((UTer27::from_dec(7_625_597_484_986) + UTer27::from_dec(2)).to_dec(), 1);
}

#[test]
fn bter9_roundtrip() {
    for v in [-9841i32, -100, -1, 0, 1, 42, 100, 9841] {
        assert_eq!(BTer9::from_dec(v).to_dec(), v, "BTer9 roundtrip {v}");
    }
}

#[test]
fn bter9_logical_ops() {
    let a = BTer9::from_dec(13);
    let b = BTer9::from_dec(-5);
    assert_eq!((a & b).to_dec(), -5);
    assert_eq!((a | b).to_dec(), 13);
    assert_eq!((a ^ b).to_dec(), 5);
    assert_eq!((-a).to_dec(), -13);
}

#[test]
fn bter27_roundtrip() {
    for v in [-3_762_798_742_493i64, -100, -1, 0, 1, 42, 1_000_000] {
        assert_eq!(BTer27::from_dec(v).to_dec(), v, "BTer27 roundtrip {v}");
    }
}

#[test]
fn bter27_logical_ops() {
    let a = BTer27::from_dec(13);
    let b = BTer27::from_dec(-5);
    assert_eq!((a & b).to_dec(), -5);
    assert_eq!((a | b).to_dec(), 13);
    assert_eq!((-a).to_dec(), -13);
}

#[test]
fn bter9_bter27_match_bct32() {
    let vals: &[i32] = &[-13, -5, -1, 0, 1, 5, 13];
    for &a in vals {
        for &b in vals {
            let b9a = BTer9::from_dec(a);
            let b9b = BTer9::from_dec(b);
            let ila = IlBctTer32::from_dec(a as i64);
            let ilb = IlBctTer32::from_dec(b as i64);
            assert_eq!((b9a & b9b).to_dec() as i64, (ila & ilb).to_dec(), "AND b9 vs il32 a={a} b={b}");
            assert_eq!((b9a | b9b).to_dec() as i64, (ila | ilb).to_dec(), "OR  b9 vs il32 a={a} b={b}");
            assert_eq!((b9a ^ b9b).to_dec() as i64, (ila ^ ilb).to_dec(), "XOR b9 vs il32 a={a} b={b}");
        }
    }
}

#[test]
fn bter9_wrapping_arith_and_shifts() {
    assert_eq!((BTer9::from_dec(9841) + BTer9::from_dec(1)).to_dec(), -9841);
    assert_eq!((BTer9::from_dec(100) - BTer9::from_dec(58)).to_dec(), 42);
    assert_eq!((BTer9::from_dec(1) << 2usize).to_dec(), 9);
    assert_eq!((BTer9::from_dec(9) >> 1usize).to_dec(), 3);
    assert_eq!(BTer9::from_dec(0).to_uter9().to_dec(), 9841);
    assert_eq!(BTer9::zero().to_dec(), 0);
    assert_eq!(BTer9::maximum().to_dec(), 9841);
    assert_eq!(BTer9::minimum().to_dec(), -9841);
}

#[test]
fn bct_roundtrip() {
    for v in [-13i64, -5, -1, 0, 1, 5, 13, 42, 12345, -12345] {
        assert_eq!(BctTer32::from_dec(v).to_dec(), v, "roundtrip failed for {v}");
    }
}

#[test]
fn bct_bitwise_ops() {
    let a = BctTer32::from_dec(13);
    let b = BctTer32::from_dec(-5);
    assert_eq!((a & b).to_dec(), -5);
    assert_eq!((a | b).to_dec(), 13);
    assert_eq!((a ^ b).to_dec(), 5);
    assert_eq!((-a).to_dec(), -13);
    assert_eq!(a.bct_consensus(b).to_dec(), 4);
    assert_eq!(a.bct_accept_anything(BctTer32::zero()), a);
    assert_eq!(a.bct_accept_anything(-a), BctTer32::zero());
}

#[test]
fn bct_shifts() {
    assert_eq!((BctTer32::from_dec(1) << 1usize).to_dec(), 3);
    assert_eq!((BctTer32::from_dec(1) << 2usize).to_dec(), 9);
    assert_eq!((BctTer32::from_dec(9) >> 1usize).to_dec(), 3);
    assert_eq!((BctTer32::from_dec(9) >> 2usize).to_dec(), 1);
    assert_eq!((BctTer32::from_dec(1) << 32usize), BctTer32::zero());
    assert_eq!((BctTer32::from_dec(1) >> 32usize), BctTer32::zero());
}

#[test]
fn bct_from_ternary_roundtrip() {
    let t = Ternary::parse("+-0+-0+-0+");
    let bct = BctTer32::from_ternary(&t);
    assert_eq!(bct.to_ternary().trim().to_string(), t.to_string());
}

#[test]
fn bct_shift_matches_expected() {
    let v = 81i64;
    let bct = BctTer32::from_dec(v);
    assert_eq!((bct >> 2usize).to_dec(), 9);
    assert_eq!((bct << 1usize).to_dec(), 243);
}

#[test]
fn bct32_fast_add_sub() {
    let vals: &[i64] = &[-1_000_000, -100, -13, -5, -1, 0, 1, 5, 13, 42, 100, 1_000_000];
    for &a in vals {
        for &b in vals {
            let ba = BctTer32::from_dec(a);
            let bb = BctTer32::from_dec(b);
            assert_eq!((ba + bb).to_dec(), a + b, "BctTer32 add a={a} b={b}");
            assert_eq!((ba - bb).to_dec(), a - b, "BctTer32 sub a={a} b={b}");
        }
    }
}

#[test]
fn ilbct32_fast_add_sub() {
    let vals: &[i64] = &[-1_000_000, -100, -13, -5, -1, 0, 1, 5, 13, 42, 100, 1_000_000];
    for &a in vals {
        for &b in vals {
            let ia = IlBctTer32::from_dec(a);
            let ib = IlBctTer32::from_dec(b);
            assert_eq!((ia + ib).to_dec(), a + b, "IlBctTer32 add a={a} b={b}");
            assert_eq!((ia - ib).to_dec(), a - b, "IlBctTer32 sub a={a} b={b}");
        }
    }
}

#[test]
fn ter40_arithmetic_and_bounds() {
    let a = Ter40::from_dec(1_000_000_007);
    let b = Ter40::from_dec(-3);
    assert_eq!((a + b).to_dec(), 1_000_000_004);
    assert_eq!((a * b).to_dec(), -3_000_000_021);
    assert_eq!((a / b).to_dec(), -333_333_335);
    assert_eq!((-a).to_dec(), -1_000_000_007);
    assert_eq!(IlTer40::maximum().to_dec(), 6_078_832_729_528_464_400);
    assert_eq!(IlTer40::minimum().to_dec(), -6_078_832_729_528_464_400);
}

#[test]
fn store_conversions_through_from() {
    let t = Ternary::parse("+-0-+0+");
    let d = DataTernary::from(t.clone());
    assert_eq!(Ternary::from(d), t);
    assert_eq!(i64::from(Ter40::from(-42i64)), -42);
    assert_eq!(Ternary::from(Ter40::from(5i64)).to_dec(), 5);
    assert_eq!(Ternary::from(Ter40::from(5i64)).to_string().len(), 40);
    assert_eq!(i64::from(IlTer40::from_dec(77)), 77);
    assert_eq!(Ter40::from(IlTer40::from_dec(-77)).to_dec(), -77);
    assert_eq!(i64::from(BctTer32::from(12345i64)), 12345);
    assert_eq!(BctTer32::from(Ternary::parse("+--")).to_dec(), 5);
    assert_eq!(Ternary::from(BctTer32::from(5i64)).trim().to_string(), "+--");
    assert_eq!(i64::from(IlBctTer32::from(-12345i64)), -12345);
    assert_eq!(Ternary::from(IlBctTer32::from(5i64)).trim().to_string(), "+--");
    assert_eq!(u32::from(UTer9::from(20000u32)), 317);
    assert_eq!(u64::from(UTer27::from(42u64)), 42);
    assert_eq!(i32::from(BTer9::from_dec(-77)), -77);
    assert_eq!(i64::from(BTer27::from_dec(-77)), -77);
    assert_eq!(BTer9::from(UTer9::from_dec(0)).to_dec(), -9841);
    assert_eq!(UTer9::from(BTer9::from_dec(0)).to_dec(), 9841);
    assert_eq!(BTer27::from(UTer27::from_dec(3812798742493)).to_dec(), 0);
    assert_eq!(UTer27::from(BTer27::from_dec(1)).to_dec(), 3812798742494);
    assert_eq!(BTer27::from(BTer9::from_dec(9841)).to_dec(), 9841);
}

#[test]
fn bter_from_dec_out_of_range_wraps_the_biased_word() {
    // -9842 + 9841 = -1, read as the u32 4294967295, which is 18597 modulo 3^9.
    assert_eq!(BTer9::from_dec(-9842).to_dec(), 18597 - 9841);
    assert_eq!((BTer9::from_dec(100) * BTer9::from_dec(100)).to_dec(), (10000 + 9841) % 19683 - 9841);
}

#[test]
fn data_ternary_fixed_form_keeps_leading_zeros() {
    let d = DataTernary::from_ternary(Ternary::parse("+-0-"));
    assert_eq!(d.to_fixed_ternary().to_string(), "0+-0-");
    assert_eq!(d.to_ternary().to_string(), "+-0-");
    let d = DataTernary::from_ternary(Ternary::from_dec(42));
    assert_eq!(d.to_fixed_ternary().to_dec(), 42);
}

#[test]
fn bct_default_is_zero_and_from_dec_chunks() {
    assert_eq!(BctTer32::default(), BctTer32::zero());
    assert_eq!(BctTer32::default().to_dec(), 0);
    let d = DataTernary::from_dec(42);
    assert_eq!(d.to_dec(), 42);
    assert_eq!(DataTernary::from_dec(0).chunk_count(), 1);
}
