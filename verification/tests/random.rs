use balanced_ternary::Digit;
use balanced_ternary::getrandom::{
    SplitMix64, bter27_from_bytes, bter9_from_bytes, digit_from_byte, fill_digits,
    uter27_from_bytes, uter9_from_bytes,
};

#[test]
fn splitmix64_known_sequence() {
    let mut rng = SplitMix64::from_seed(1);
    assert_eq!(rng.next_u64(), 10451216379200822465);
    assert_eq!(rng.next_u64(), 13757245211066428519);
    assert_eq!(rng.next_u32(), 4214379870);
}

#[test]
fn splitmix64_zero_seeds() {
    let mut a = SplitMix64::from_seed(0);
    let mut b = SplitMix64::from_seed(1);
    assert_eq!(a.next_u64(), b.next_u64());
    let mut c = SplitMix64::from_entropy(0);
    let mut d = SplitMix64::from_seed(0x9e3779b97f4a7c15);
    assert_eq!(c.next_u64(), d.next_u64());
}

#[test]
fn splitmix64_words() {
    let mut rng = SplitMix64::from_seed(1);
    assert_eq!(rng.rand_bter9().to_dec(), 3462);
    let mut rng = SplitMix64::from_seed(1);
    assert_eq!(rng.rand_uter9().to_dec(), 13303);
    let mut rng = SplitMix64::from_seed(1);
    assert_eq!(rng.rand_bter27().to_dec(), 1481138958787);
    let mut rng = SplitMix64::from_seed(1);
    assert_eq!(rng.rand_uter27().to_dec(), 7125334284524);
    let mut rng = SplitMix64::from_seed(12345);
    for _ in 0..1000 {
        let v = rng.rand_bter9().to_dec();
        assert!((-9841..=9841).contains(&v));
    }
}

#[test]
fn digits_from_bytes() {
    assert_eq!(digit_from_byte(0), Some(Digit::Neg));
    assert_eq!(digit_from_byte(1), Some(Digit::Zero));
    assert_eq!(digit_from_byte(2), Some(Digit::Pos));
    assert_eq!(digit_from_byte(251), Some(Digit::Pos));
    assert_eq!(digit_from_byte(252), None);
    assert_eq!(digit_from_byte(255), None);
}

#[test]
fn fill_digits_skips_tail_and_stops() {
    let mut digits = Vec::new();
    let done = fill_digits(&mut digits, 3, &[0, 253, 4, 5, 6, 7]);
    assert!(done);
    assert_eq!(digits, vec![Digit::Neg, Digit::Zero, Digit::Pos]);
    let mut digits = Vec::new();
    assert!(!fill_digits(&mut digits, 4, &[255, 3]));
    assert_eq!(digits, vec![Digit::Neg]);
    assert!(fill_digits(&mut digits, 1, &[1]));
    assert_eq!(digits, vec![Digit::Neg]);
}

#[test]
fn words_from_bytes() {
    // 0x0102 little-endian is 513
    assert_eq!(uter9_from_bytes([0x01, 0x02]).unwrap().to_dec(), 513);
    assert_eq!(bter9_from_bytes([0x01, 0x02]).unwrap().to_dec(), 513 - 9841);
    assert!(uter9_from_bytes([0xFF, 0xFF]).is_none());
    assert!(bter9_from_bytes([0xA9, 0xE6]).is_none()); // 59049 is the first rejected value
    assert!(bter9_from_bytes([0xA8, 0xE6]).is_some());
    let bytes = [1, 0, 0, 0, 0, 0, 0xFF, 0xFF];
    assert_eq!(uter27_from_bytes(bytes).unwrap().to_dec(), 1);
    assert_eq!(bter27_from_bytes(bytes).unwrap().to_dec(), 1 - 3762798742493);
    assert!(uter27_from_bytes([0xFF; 8]).is_none());
}

#[test]
fn balanced27_draws_stay_in_documented_range() {
    let mut rng = SplitMix64::from_seed(7);
    for _ in 0..1000 {
        let v = rng.rand_bter27().to_dec();
        assert!((-3762798742493..=3762798742493).contains(&v));
    }
    // 2^48 - 1 lies in the rejected tail
    assert!(bter27_from_bytes([0xFF, 0xFF, 0xFF, 0xFF, 0xFF, 0xFF, 0, 0]).is_none());
}

fn splitmix_mix(z: u64) -> u64 {
    let z = (z ^ (z >> 30)).wrapping_mul(0xbf58476d1ce4e5b9);
    let z = (z ^ (z >> 27)).wrapping_mul(0x94d049bb133111eb);
    z ^ (z >> 31)
}

#[test]
fn splitmix64_kth_output_closed_form() {
    let mut rng = SplitMix64::from_seed(5);
    for k in 1..=10u64 {
        let expected = splitmix_mix(5u64.wrapping_add(k.wrapping_mul(0x9e3779b97f4a7c15)));
        assert_eq!(rng.next_u64(), expected);
    }
}
