use balanced_ternary::Digit;

#[test]
fn consensus_agreement() {
    assert_eq!(Digit::Pos.consensus(Digit::Pos), Digit::Pos);
    assert_eq!(Digit::Neg.consensus(Digit::Neg), Digit::Neg);
    assert_eq!(Digit::Zero.consensus(Digit::Zero), Digit::Zero);
}

#[test]
fn consensus_disagreement_gives_zero() {
    assert_eq!(Digit::Pos.consensus(Digit::Neg), Digit::Zero);
    assert_eq!(Digit::Neg.consensus(Digit::Pos), Digit::Zero);
    assert_eq!(Digit::Pos.consensus(Digit::Zero), Digit::Zero);
    assert_eq!(Digit::Zero.consensus(Digit::Pos), Digit::Zero);
    assert_eq!(Digit::Neg.consensus(Digit::Zero), Digit::Zero);
    assert_eq!(Digit::Zero.consensus(Digit::Neg), Digit::Zero);
}

#[test]
fn accept_anything_zero_is_transparent() {
    assert_eq!(Digit::Zero.accept_anything(Digit::Pos), Digit::Pos);
    assert_eq!(Digit::Zero.accept_anything(Digit::Neg), Digit::Neg);
    assert_eq!(Digit::Zero.accept_anything(Digit::Zero), Digit::Zero);
    assert_eq!(Digit::Pos.accept_anything(Digit::Zero), Digit::Pos);
    assert_eq!(Digit::Neg.accept_anything(Digit::Zero), Digit::Neg);
}

#[test]
fn accept_anything_agreement() {
    assert_eq!(Digit::Pos.accept_anything(Digit::Pos), Digit::Pos);
    assert_eq!(Digit::Neg.accept_anything(Digit::Neg), Digit::Neg);
}

#[test]
fn accept_anything_conflict_gives_zero() {
    assert_eq!(Digit::Pos.accept_anything(Digit::Neg), Digit::Zero);
    assert_eq!(Digit::Neg.accept_anything(Digit::Pos), Digit::Zero);
}

#[test]
fn consensus_implies_accept_anything() {
    for a in [Digit::Neg, Digit::Zero, Digit::Pos] {
        for b in [Digit::Neg, Digit::Zero, Digit::Pos] {
            let con = a.consensus(b);
            let any = a.accept_anything(b);
            if con != Digit::Zero {
                assert_eq!(any, con, "a={a:?} b={b:?}");
            }
        }
    }
}

#[test]
fn digit_char_conversions() {
    for d in [Digit::Neg, Digit::Zero, Digit::Pos] {
        assert_eq!(Digit::from_char(d.to_char()), d);
        assert_eq!(Digit::from_i8(d.to_i8()), d);
        assert_eq!(char::from(d), d.to_char());
        assert_eq!(i8::from(d), d.to_i8());
    }
    assert_eq!(Digit::Pos.to_char(), '+');
    assert_eq!(Digit::Neg.to_char(), '-');
    assert_eq!(Digit::Zero.to_char(), '0');
    assert_eq!(Digit::Neg.to_char_theta(), 'Θ');
    assert_eq!(Digit::Neg.to_char_z(), 'Z');
    assert_eq!(Digit::Neg.to_char_t(), 'T');
}

#[test]
fn post_cycle_and_pre() {
    for d in [Digit::Neg, Digit::Zero, Digit::Pos] {
        assert_eq!(d.post().post().post(), d);
        assert_eq!(d.post().pre(), d);
        assert_eq!(d.post().post(), d.pre());
    }
    assert_eq!(Digit::Neg.post(), Digit::Zero);
    assert_eq!(Digit::Zero.post(), Digit::Pos);
    assert_eq!(Digit::Pos.post(), Digit::Neg);
}

#[test]
fn merge_of_disjoint_fields() {
    for d in [Digit::Neg, Digit::Zero, Digit::Pos] {
        assert_eq!(d.accept_anything(Digit::Zero), d);
        assert_eq!(Digit::Zero.accept_anything(d), d);
    }
}

#[test]
fn kleene_de_morgan() {
    for a in [Digit::Neg, Digit::Zero, Digit::Pos] {
        for b in [Digit::Neg, Digit::Zero, Digit::Pos] {
            assert_eq!(-(a & b), (-a) | (-b));
            assert_eq!(-(a | b), (-a) & (-b));
            assert_eq!(a & b, b & a);
        }
    }
}

#[test]
fn digit_arithmetic_and_logic_tables() {
    assert_eq!(Digit::Pos + Digit::Pos, Digit::Neg);
    assert_eq!(Digit::Neg - Digit::Pos, Digit::Pos);
    assert_eq!(Digit::Pos * Digit::Neg, Digit::Neg);
    assert_eq!(Digit::Pos ^ Digit::Pos, Digit::Neg);
    assert_eq!(Digit::Zero ^ Digit::Pos, Digit::Zero);
    assert_eq!(Digit::Neg.k3_imply(Digit::Neg), Digit::Pos);
    assert_eq!(Digit::Zero.l3_imply(Digit::Zero), Digit::Pos);
    assert_eq!(Digit::Zero.k3_imply(Digit::Zero), Digit::Zero);
    assert_eq!(Digit::Pos.is_pos(), Digit::Pos);
    assert_eq!(Digit::Zero.is_pos(), Digit::Neg);
    assert_eq!(Digit::Pos.clamp_down(), Digit::Zero);
    assert_eq!(Digit::Neg.clamp_up(), Digit::Zero);
    assert_eq!(Digit::Pos.eq_digit(Digit::Pos), Digit::Pos);
    assert_eq!(Digit::Pos.eq_digit(Digit::Neg), Digit::Neg);
}
