use rthybrid_burst_analysis::binary64::Binary64;
use rthybrid_burst_analysis::pack::bit_length;

fn soft(x: f64) -> Binary64 {
    Binary64::from_bits(x.to_bits())
}

fn agrees(got: Binary64, want: f64) -> bool {
    if want.is_nan() {
        got.is_nan()
    } else {
        got.to_bits() == want.to_bits()
    }
}

struct Source {
    state: u64,
}

impl Source {
    fn next(&mut self) -> u64 {
        self.state ^= self.state << 13;
        self.state ^= self.state >> 7;
        self.state ^= self.state << 17;
        self.state
    }

    /// Any encoding at all.
    fn any(&mut self) -> f64 {
        f64::from_bits(self.next())
    }

    /// An encoding whose exponent field lies within `spread` of `centre`.
    fn near(&mut self, centre: u64, spread: u64) -> f64 {
        let raw = self.next();
        let field = centre - spread + (self.next() % (2 * spread + 1));
        let sign = raw & 0x8000_0000_0000_0000;
        let fraction = raw & 0x000F_FFFF_FFFF_FFFF;
        f64::from_bits(sign | (field << 52) | fraction)
    }

    /// A subnormal or a small normal.
    fn tiny(&mut self) -> f64 {
        let raw = self.next();
        let sign = raw & 0x8000_0000_0000_0000;
        let keep = self.next() % 56;
        f64::from_bits(sign | ((raw & 0x003F_FFFF_FFFF_FFFF) >> keep))
    }

    /// A fraction with few bits set, so that ties occur.
    fn sparse(&mut self, centre: u64, spread: u64) -> f64 {
        let x = self.near(centre, spread).to_bits();
        let keep = self.next() % 53;
        f64::from_bits(x & !((1u64 << keep) - 1) | 0)
    }

    fn pair(&mut self, round: u64) -> (f64, f64) {
        match round % 8 {
            0 => (self.any(), self.any()),
            1 => (self.near(1023, 30), self.near(1023, 30)),
            2 => (self.near(1023, 2), self.near(1023, 2)),
            3 => (self.tiny(), self.near(1023, 60)),
            4 => (self.near(1023, 60), self.tiny()),
            5 => (self.tiny(), self.tiny()),
            6 => (self.sparse(1023, 40), self.sparse(1023, 40)),
            _ => (self.near(2000, 46), self.near(1000, 1000)),
        }
    }
}

fn specials() -> Vec<f64> {
    vec![
        0.0,
        -0.0,
        1.0,
        -1.0,
        0.1,
        0.9,
        0.001,
        5.0,
        999_999.0,
        -999_999.0,
        f64::MIN_POSITIVE,
        -f64::MIN_POSITIVE,
        f64::from_bits(1),
        f64::from_bits(0x8000_0000_0000_0001),
        f64::from_bits(0x000F_FFFF_FFFF_FFFF),
        f64::MAX,
        f64::MIN,
        f64::EPSILON,
        f64::INFINITY,
        f64::NEG_INFINITY,
        f64::NAN,
        9_007_199_254_740_992.0,
        9_007_199_254_740_993.0,
        4_503_599_627_370_496.5,
        1.5,
        2.5,
        3.0,
        1.0e308,
        1.0e-308,
        4.9e-324,
    ]
}

#[test]
fn product_agrees_with_the_machine_on_special_values() {
    for &x in specials().iter() {
        for &y in specials().iter() {
            assert!(agrees(soft(x).times(soft(y)), x * y), "{:e} * {:e}", x, y);
        }
    }
}

#[test]
fn quotient_agrees_with_the_machine_on_special_values() {
    for &x in specials().iter() {
        for &y in specials().iter() {
            assert!(agrees(soft(x).over(soft(y)), x / y), "{:e} / {:e}", x, y);
        }
    }
}

#[test]
fn sum_agrees_with_the_machine_on_special_values() {
    for &x in specials().iter() {
        for &y in specials().iter() {
            assert!(agrees(soft(x).plus(soft(y)), x + y), "{:e} + {:e}", x, y);
        }
    }
}

#[test]
fn difference_agrees_with_the_machine_on_special_values() {
    for &x in specials().iter() {
        for &y in specials().iter() {
            assert!(agrees(soft(x).minus(soft(y)), x - y), "{:e} - {:e}", x, y);
        }
    }
}

#[test]
fn comparisons_agree_with_the_machine_on_special_values() {
    for &x in specials().iter() {
        for &y in specials().iter() {
            assert_eq!(soft(x).lt(soft(y)), x < y, "{:e} < {:e}", x, y);
            assert_eq!(soft(x).gt(soft(y)), x > y, "{:e} > {:e}", x, y);
            assert_eq!(soft(x).le(soft(y)), x <= y, "{:e} <= {:e}", x, y);
        }
        assert_eq!(soft(x).is_finite(), x.is_finite());
        assert_eq!(soft(x).is_nan(), x.is_nan());
        assert_eq!(soft(x).is_negative(), x.is_sign_negative());
        assert_eq!(soft(x).negated().to_bits(), (-x).to_bits());
    }
}

#[test]
fn product_agrees_with_the_machine_on_sampled_encodings() {
    let mut source = Source { state: 0x9E37_79B9_7F4A_7C15 };
    for round in 0..40_000u64 {
        let (x, y) = source.pair(round);
        assert!(agrees(soft(x).times(soft(y)), x * y), "{:e} * {:e}", x, y);
    }
}

#[test]
fn quotient_agrees_with_the_machine_on_sampled_encodings() {
    let mut source = Source { state: 0xD1B5_4A32_D192_ED03 };
    for round in 0..40_000u64 {
        let (x, y) = source.pair(round);
        assert!(agrees(soft(x).over(soft(y)), x / y), "{:e} / {:e}", x, y);
    }
}

#[test]
fn sum_agrees_with_the_machine_on_sampled_encodings() {
    let mut source = Source { state: 0x2545_F491_4F6C_DD1D };
    for round in 0..40_000u64 {
        let (x, y) = source.pair(round);
        assert!(agrees(soft(x).plus(soft(y)), x + y), "{:e} + {:e}", x, y);
    }
}

#[test]
fn difference_agrees_with_the_machine_on_sampled_encodings() {
    let mut source = Source { state: 0x1234_5678_9ABC_DEF1 };
    for round in 0..40_000u64 {
        let (x, y) = source.pair(round);
        assert!(agrees(soft(x).minus(soft(y)), x - y), "{:e} - {:e}", x, y);
    }
}

#[test]
fn comparisons_agree_with_the_machine_on_sampled_encodings() {
    let mut source = Source { state: 0x0F0F_1234_ABCD_4321 };
    for round in 0..40_000u64 {
        let (x, y) = source.pair(round);
        assert_eq!(soft(x).lt(soft(y)), x < y, "{:e} < {:e}", x, y);
        assert_eq!(soft(x).gt(soft(y)), x > y, "{:e} > {:e}", x, y);
        assert_eq!(soft(x).le(soft(y)), x <= y, "{:e} <= {:e}", x, y);
    }
}

#[test]
fn conversion_of_a_count_is_exact_up_to_two_to_the_53() {
    let counts: [u64; 9] = [
        0,
        1,
        2,
        3,
        1000,
        4_503_599_627_370_495,
        4_503_599_627_370_496,
        9_007_199_254_740_991,
        9_007_199_254_740_992,
    ];
    for &n in counts.iter() {
        assert_eq!(Binary64::from_count(n).to_bits(), (n as f64).to_bits());
        assert_eq!(f64::from_bits(Binary64::from_count(n).to_bits()) as u64, n);
    }
}

#[test]
fn conversion_of_a_count_rounds_to_nearest_even_above_two_to_the_53() {
    let counts: [u64; 7] = [
        9_007_199_254_740_993,
        9_007_199_254_740_994,
        9_007_199_254_740_995,
        18_014_398_509_481_985,
        u64::MAX,
        u64::MAX - 1023,
        u64::MAX - 1024,
    ];
    for &n in counts.iter() {
        assert_eq!(Binary64::from_count(n).to_bits(), (n as f64).to_bits());
    }
}

#[test]
fn one_tenth_times_ten_is_one() {
    assert_eq!(soft(0.1).times(soft(10.0)).to_bits(), 1.0f64.to_bits());
    assert_eq!(soft(10.0).times(soft(0.9)).to_bits(), 9.0f64.to_bits());
    assert_eq!(soft(1.0).over(soft(0.5)).to_bits(), 2.0f64.to_bits());
    assert_eq!(soft(0.1).plus(soft(0.2)).to_bits(), 0x3FD3_3333_3333_3334);
}

#[test]
fn decode_gives_significand_and_scale() {
    // value = significand * 2^(scale - 1074)
    assert_eq!(soft(1.0).decode(), (1u64 << 52, 1022));
    assert_eq!(soft(-1.0).decode(), (1u64 << 52, 1022));
    assert_eq!(soft(5.0).decode(), (5u64 << 50, 1024));
    assert_eq!(soft(999_999.0).decode(), (999_999u64 << 33, 1041));
    assert_eq!(soft(0.0).decode(), (0, 0));
    assert_eq!(soft(4.9e-324).decode(), (1, 0));
    assert_eq!(soft(f64::MIN_POSITIVE).decode(), (1u64 << 52, 0));
    assert_eq!(Binary64::from_bits(0x000F_FFFF_FFFF_FFFF).decode(), ((1u64 << 52) - 1, 0));
    assert_eq!(soft(f64::MAX).decode(), ((1u64 << 53) - 1, 2045));
    assert_eq!(soft(f64::INFINITY).decode(), (1u64 << 52, 2046));
}

#[test]
fn abs_bits_drops_the_sign() {
    assert_eq!(soft(-1.0).abs_bits(), 1.0f64.to_bits());
    assert_eq!(soft(1.0).abs_bits(), 1.0f64.to_bits());
    assert_eq!(soft(-0.0).abs_bits(), 0);
    assert_eq!(soft(f64::NEG_INFINITY).abs_bits(), f64::INFINITY.to_bits());
}

#[test]
fn bit_length_counts_up_to_the_highest_set_bit() {
    assert_eq!(bit_length(0), 0);
    assert_eq!(bit_length(1), 1);
    assert_eq!(bit_length(2), 2);
    assert_eq!(bit_length(3), 2);
    assert_eq!(bit_length(255), 8);
    assert_eq!(bit_length(256), 9);
    assert_eq!(bit_length((1u128 << 53) - 1), 53);
    assert_eq!(bit_length(1u128 << 53), 54);
    assert_eq!(bit_length(1u128 << 127), 128);
    assert_eq!(bit_length(u128::MAX), 128);
}
