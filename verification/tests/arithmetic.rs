//! The integer arithmetic of the library held against the machine's own
//! binary64 arithmetic, bit for bit.
use basic_stochastics::Binary64;

fn b(x: f64) -> Binary64 {
    Binary64::from_bits(x.to_bits())
}

fn f(x: Binary64) -> f64 {
    f64::from_bits(x.to_bits())
}

fn same(ours: Binary64, theirs: f64) -> bool {
    if theirs.is_nan() {
        ours.is_nan()
    } else {
        ours.to_bits() == theirs.to_bits()
    }
}

struct Patterns {
    state: u64,
}

impl Patterns {
    fn next(&mut self) -> u64 {
        self.state = self
            .state
            .wrapping_mul(6364136223846793005)
            .wrapping_add(1442695040888963407);
        let mut z = self.state;
        z ^= z >> 33;
        z = z.wrapping_mul(0xff51afd7ed558ccd);
        z ^= z >> 29;
        z
    }

    /// A pair of patterns: unrelated, or close in exponent, or close to the
    /// ends of the exponent range, in turn.
    fn pair(&mut self, round: u64) -> (f64, f64) {
        let x = self.next();
        let y = self.next();
        let (x, y) = match round % 5 {
            0 => (x, y),
            1 => (x, (x & 0x8000_0000_0000_0000) ^ (y & 0x800f_ffff_ffff_ffff) | (x & 0x7ff0_0000_0000_0000)),
            2 => (x, y & 0x803f_ffff_ffff_ffff),
            3 => (x & 0x801f_ffff_ffff_ffff, y & 0x801f_ffff_ffff_ffff),
            _ => {
                let shift = (self.next() % 120) << 52;
                (x, (y & 0x800f_ffff_ffff_ffff) | ((x & 0x7ff0_0000_0000_0000).wrapping_add(shift) & 0x7ff0_0000_0000_0000))
            }
        };
        (f64::from_bits(x), f64::from_bits(y))
    }
}

const SPECIAL: [f64; 22] = [
    0.0,
    -0.0,
    1.0,
    -1.0,
    2.0,
    0.5,
    3.0,
    0.1,
    -0.3,
    1.5,
    4503599627370496.0,
    9007199254740992.0,
    9007199254740993.0,
    1.7976931348623157e308,
    -1.7976931348623157e308,
    2.2250738585072014e-308,
    2.225073858507201e-308,
    5e-324,
    -5e-324,
    f64::INFINITY,
    f64::NEG_INFINITY,
    f64::NAN,
];

#[test]
fn plus_matches_machine_on_special_values() {
    for &x in SPECIAL.iter() {
        for &y in SPECIAL.iter() {
            assert!(same(b(x).plus(b(y)), x + y), "{:e} + {:e}", x, y);
        }
    }
}

#[test]
fn minus_matches_machine_on_special_values() {
    for &x in SPECIAL.iter() {
        for &y in SPECIAL.iter() {
            assert!(same(b(x).minus(b(y)), x - y), "{:e} - {:e}", x, y);
        }
    }
}

#[test]
fn times_matches_machine_on_special_values() {
    for &x in SPECIAL.iter() {
        for &y in SPECIAL.iter() {
            assert!(same(b(x).times(b(y)), x * y), "{:e} * {:e}", x, y);
        }
    }
}

#[test]
fn divided_by_matches_machine_on_special_values() {
    for &x in SPECIAL.iter() {
        for &y in SPECIAL.iter() {
            assert!(same(b(x).divided_by(b(y)), x / y), "{:e} / {:e}", x, y);
        }
    }
}

#[test]
fn less_than_matches_machine_on_special_values() {
    for &x in SPECIAL.iter() {
        for &y in SPECIAL.iter() {
            assert_eq!(b(x).less_than(b(y)), x < y, "{:e} < {:e}", x, y);
        }
    }
}

#[test]
fn plus_matches_machine_on_many_patterns() {
    let mut p = Patterns { state: 1 };
    for round in 0..200_000u64 {
        let (x, y) = p.pair(round);
        assert!(same(b(x).plus(b(y)), x + y), "{:e} + {:e}", x, y);
    }
}

#[test]
fn minus_matches_machine_on_many_patterns() {
    let mut p = Patterns { state: 2 };
    for round in 0..200_000u64 {
        let (x, y) = p.pair(round);
        assert!(same(b(x).minus(b(y)), x - y), "{:e} - {:e}", x, y);
    }
}

#[test]
fn times_matches_machine_on_many_patterns() {
    let mut p = Patterns { state: 3 };
    for round in 0..200_000u64 {
        let (x, y) = p.pair(round);
        assert!(same(b(x).times(b(y)), x * y), "{:e} * {:e}", x, y);
    }
}

#[test]
fn divided_by_matches_machine_on_many_patterns() {
    let mut p = Patterns { state: 4 };
    for round in 0..200_000u64 {
        let (x, y) = p.pair(round);
        assert!(same(b(x).divided_by(b(y)), x / y), "{:e} / {:e}", x, y);
    }
}

#[test]
fn less_than_matches_machine_on_many_patterns() {
    let mut p = Patterns { state: 5 };
    for round in 0..200_000u64 {
        let (x, y) = p.pair(round);
        assert_eq!(b(x).less_than(b(y)), x < y, "{:e} < {:e}", x, y);
    }
}

#[test]
fn negate_flips_the_sign_only() {
    assert_eq!(f(b(1.5).negate()), -1.5);
    assert_eq!(b(0.0).negate().to_bits(), (-0.0f64).to_bits());
    assert_eq!(b(f64::NEG_INFINITY).negate().to_bits(), f64::INFINITY.to_bits());
    assert!(b(f64::NAN).negate().is_nan());
}

#[test]
fn from_count_matches_machine() {
    let counts: [usize; 10] = [
        0,
        1,
        5,
        1000,
        9007199254740992,
        9007199254740993,
        9007199254740995,
        18014398509481985,
        usize::MAX - 1,
        usize::MAX,
    ];
    for &n in counts.iter() {
        assert_eq!(Binary64::from_count(n).to_bits(), (n as f64).to_bits(), "{}", n);
    }
}

#[test]
fn ties_go_to_the_even_neighbour() {
    // 2^53 + 1 lies midway between 2^53 and 2^53 + 2.
    assert_eq!(f(b(9007199254740992.0).plus(b(1.0))), 9007199254740992.0);
    // 2^53 + 3 lies midway between 2^53 + 2 and 2^53 + 4.
    assert_eq!(f(b(9007199254740994.0).plus(b(1.0))), 9007199254740996.0);
}

#[test]
fn exact_zero_sums_are_positive_unless_both_terms_are_negative() {
    assert_eq!(b(1.0).plus(b(-1.0)).to_bits(), 0);
    assert_eq!(b(-1.0).plus(b(1.0)).to_bits(), 0);
    assert_eq!(b(-0.0).plus(b(-0.0)).to_bits(), (-0.0f64).to_bits());
    assert_eq!(b(0.0).plus(b(-0.0)).to_bits(), 0);
}

#[test]
fn overflow_gives_infinity() {
    assert_eq!(f(b(1.7976931348623157e308).plus(b(1.7976931348623157e308))), f64::INFINITY);
    assert_eq!(f(b(-1e200).times(b(1e200))), f64::NEG_INFINITY);
    assert_eq!(f(b(1e300).divided_by(b(1e-300))), f64::INFINITY);
}

#[test]
fn underflow_is_gradual() {
    assert_eq!(f(b(5e-324).divided_by(b(2.0))), 0.0);
    assert_eq!(f(b(1.5e-323).divided_by(b(2.0))), 1e-323);
    assert_eq!(f(b(2.2250738585072014e-308).times(b(0.5))), 1.1125369292536007e-308);
}

#[test]
fn sqrt_matches_machine_on_special_values() {
    for &x in SPECIAL.iter() {
        assert!(same(b(x).sqrt(), x.sqrt()), "sqrt {:e}", x);
    }
}

#[test]
fn sqrt_matches_machine_on_many_patterns() {
    let mut p = Patterns { state: 6 };
    for round in 0..200_000u64 {
        let (x, y) = p.pair(round);
        assert!(same(b(x).sqrt(), x.sqrt()), "sqrt {:e}", x);
        assert!(same(b(y).sqrt(), y.sqrt()), "sqrt {:e}", y);
    }
}

#[test]
fn sqrt_of_squares_is_exact() {
    assert_eq!(f(b(4.0).sqrt()), 2.0);
    assert_eq!(f(b(2.25).sqrt()), 1.5);
    assert_eq!(f(b(1e-320).sqrt()), 1e-320f64.sqrt());
    assert_eq!(f(b(1.04).sqrt()), 1.019803902718557);
}
