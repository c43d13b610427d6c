use brontes::primitives::U256;
use brontes::rational::Rational;
use brontes::scored::{least_index, MinScored};
use std::cmp::Ordering;

fn ratio(n: u64, d: u64) -> Rational {
    Rational::from_ratio(n, d).unwrap()
}

#[test]
fn sum_of_halves_is_one() {
    let half = ratio(1, 2);
    let sum = half.plus(&half);
    assert!(sum.equals(&Rational::one()));
    assert!(!sum.equals(&half));
}

#[test]
fn ratio_with_zero_denominator_is_refused() {
    assert!(Rational::from_ratio(7, 0).is_none());
    assert!(Rational::from_amounts(&U256::from_u64(7), &U256::zero()).is_none());
}

#[test]
fn arithmetic_is_exact() {
    // 1/3 + 1/6 = 1/2
    assert!(ratio(1, 3).plus(&ratio(1, 6)).equals(&ratio(1, 2)));
    // 2/3 * 3/4 = 1/2
    assert!(ratio(2, 3).times(&ratio(3, 4)).equals(&ratio(1, 2)));
    // (2/3) / (4/9) = 3/2
    assert!(ratio(2, 3).divided_by(&ratio(4, 9)).unwrap().equals(&ratio(3, 2)));
    assert!(ratio(2, 3).divided_by(&Rational::zero()).is_none());
    // 1 / (7/22) = 22/7
    assert!(ratio(7, 22).reciprocal().unwrap().equals(&ratio(22, 7)));
    assert!(Rational::zero().reciprocal().is_none());
}

#[test]
fn fractions_need_not_be_in_lowest_terms() {
    assert!(ratio(2, 4).equals(&ratio(1, 2)));
    assert!(ratio(0, 5).is_zero());
    assert!(!ratio(1, 5).is_zero());
    assert!(ratio(0, 5).equals(&Rational::zero()));
}

#[test]
fn order_is_the_order_of_the_numbers() {
    assert!(ratio(1, 3).less_than(&ratio(1, 2)));
    assert!(!ratio(1, 2).less_than(&ratio(1, 3)));
    assert!(!ratio(2, 4).less_than(&ratio(1, 2)));
    assert!(ratio(99, 100).less_than(&Rational::one()));
}

#[test]
fn amounts_beyond_one_limb_keep_their_value() {
    // 2^64 + 5 over 2^64 + 5 is one; over one it is not.
    let big = U256::from_u128((1u128 << 64) + 5);
    let one = U256::from_u64(1);
    assert!(Rational::from_amounts(&big, &big).unwrap().equals(&Rational::one()));
    let whole = Rational::from_amount(&big);
    assert!(whole.equals(&Rational::from_amounts(&big, &one).unwrap()));
    let next = Rational::from_u64(u64::MAX).plus(&Rational::from_u64(6));
    assert!(whole.equals(&next));
    let high = U256 { hi: 3, lo: 9 };
    assert!(Rational::from_amount(&high).less_than(&Rational::from_amount(&U256 { hi: 4, lo: 0 })));
    assert!(Rational::from_amount(&U256 { hi: 2, lo: u128::MAX }).less_than(&Rational::from_amount(&high)));
}

#[test]
fn u256_reads_its_halves() {
    assert!(U256::zero().is_zero());
    assert!(!U256::from_u64(1).is_zero());
    assert!(!U256 { hi: 1, lo: 0 }.is_zero());
    assert_eq!(U256::from_u128(77).to_u128(), Some(77));
    assert_eq!(U256 { hi: 1, lo: 77 }.to_u128(), None);
    assert!(U256 { hi: 0, lo: u128::MAX }.lt(&U256 { hi: 1, lo: 0 }));
    assert!(!U256 { hi: 1, lo: 0 }.lt(&U256 { hi: 1, lo: 0 }));
    assert_eq!(U256 { hi: 1, lo: (2u128 << 64) + 3 }.to_limbs(), vec![3, 2, 1, 0]);
}

#[test]
fn u256_reads_as_a_signed_number() {
    let minus_one = U256 { hi: u128::MAX, lo: u128::MAX };
    assert!(minus_one.is_negative());
    assert_eq!(minus_one.magnitude(), U256::from_u64(1));
    let minus_two_to_128 = U256 { hi: u128::MAX, lo: 0 };
    assert_eq!(minus_two_to_128.magnitude(), U256 { hi: 1, lo: 0 });
    let least = U256 { hi: 1 << 127, lo: 0 };
    assert!(least.is_negative());
    assert_eq!(least.magnitude(), least);
    let greatest = U256 { hi: (1 << 127) - 1, lo: u128::MAX };
    assert!(!greatest.is_negative());
    assert_eq!(greatest.magnitude(), greatest);
    assert!(!U256::zero().is_negative());
    assert_eq!(U256 { hi: u128::MAX, lo: u128::MAX - 89 }.magnitude(), U256::from_u64(90));
}

#[test]
fn min_scored_compares_in_reverse() {
    let low = MinScored(ratio(1, 3), 'a');
    let high = MinScored(ratio(1, 2), 'b');
    let same = MinScored(ratio(2, 6), 'c');
    assert_eq!(low.cmp(&high), Ordering::Greater);
    assert_eq!(high.cmp(&low), Ordering::Less);
    assert_eq!(low.cmp(&same), Ordering::Equal);
    assert_eq!(low.partial_cmp(&high), Some(Ordering::Greater));
    assert!(low.eq(&same));
    assert!(!low.eq(&high));
}

#[test]
fn frontier_hands_out_the_least_score_and_the_earliest_on_ties() {
    let frontier = vec![
        MinScored(ratio(3, 4), 0usize),
        MinScored(ratio(1, 4), 1),
        MinScored(ratio(1, 2), 2),
        MinScored(ratio(2, 8), 3),
    ];
    assert_eq!(least_index(&frontier), 1);
}
