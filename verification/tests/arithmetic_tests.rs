use bode_response::double::Double;

fn held(x: f64) -> Double {
    Double::from_bits(x.to_bits())
}

fn plain(d: Double) -> f64 {
    f64::from_bits(d.to_bits())
}

fn same(computed: Double, expected: f64) -> bool {
    if expected.is_nan() {
        computed.is_nan()
    } else {
        computed.to_bits() == expected.to_bits()
    }
}

fn specimens() -> Vec<f64> {
    vec![
        0.0,
        -0.0,
        1.0,
        -1.0,
        2.0,
        0.5,
        3.0,
        0.1,
        0.4,
        16.0,
        -5.0,
        50.0,
        1e-3,
        1e5,
        std::f64::consts::PI,
        2.0 * std::f64::consts::PI,
        314.1592653589793,
        1.0 + f64::EPSILON,
        1.0 - f64::EPSILON / 2.0,
        1.5,
        4503599627370496.0,
        9007199254740992.0,
        9007199254740993.0,
        1e-160,
        1e-170,
        1e160,
        1e170,
        1e300,
        1e-300,
        1e308,
        f64::MIN_POSITIVE,
        -f64::MIN_POSITIVE,
        f64::MIN_POSITIVE / 2.0,
        f64::MIN_POSITIVE * 1.5,
        5e-324,
        -5e-324,
        1e-323,
        2.2250738585072009e-308,
        f64::MAX,
        f64::MIN,
        f64::MAX / 2.0,
        f64::INFINITY,
        f64::NEG_INFINITY,
        f64::NAN,
    ]
}

struct Bits(u64);

impl Bits {
    fn next(&mut self) -> u64 {
        self.0 ^= self.0 << 13;
        self.0 ^= self.0 >> 7;
        self.0 ^= self.0 << 17;
        self.0
    }

    fn near(&mut self, exponent: u64, spread: u64) -> f64 {
        let sign = self.next() & 0x8000_0000_0000_0000;
        let e = (exponent + self.next() % spread) & 0x7FF;
        let fraction = match self.next() % 4 {
            0 => 0,
            1 => 0x000F_FFFF_FFFF_FFFF,
            2 => self.next() & 0x000F_FFFF_FFFF_FFFF & !((1u64 << (self.next() % 52)) - 1),
            _ => self.next() & 0x000F_FFFF_FFFF_FFFF,
        };
        f64::from_bits(sign | (e << 52) | fraction)
    }
}

#[test]
fn products_of_specimens_are_the_machines() {
    for x in specimens() {
        for y in specimens() {
            let r = held(x).times(&held(y));
            assert!(same(r, x * y), "{:?} * {:?}: {:?} for {:?}", x, y, plain(r), x * y);
        }
    }
}

#[test]
fn products_of_arbitrary_patterns_are_the_machines() {
    let mut bits = Bits(0x9E37_79B9_7F4A_7C15);
    for _ in 0..20000 {
        let x = f64::from_bits(bits.next());
        let y = f64::from_bits(bits.next());
        let r = held(x).times(&held(y));
        assert!(same(r, x * y), "{:?} * {:?}: {:?} for {:?}", x, y, plain(r), x * y);
    }
}

#[test]
fn products_around_one_are_the_machines() {
    let mut bits = Bits(0x2545_F491_4F6C_DD1D);
    for _ in 0..20000 {
        let x = bits.near(1010, 30);
        let y = bits.near(1010, 30);
        let r = held(x).times(&held(y));
        assert!(same(r, x * y), "{:?} * {:?}: {:?} for {:?}", x, y, plain(r), x * y);
    }
}

#[test]
fn products_that_underflow_are_the_machines() {
    let mut bits = Bits(0xD1B5_4A32_D192_ED03);
    for _ in 0..20000 {
        let x = bits.near(0, 60);
        let y = bits.near(960, 80);
        let r = held(x).times(&held(y));
        assert!(same(r, x * y), "{:?} * {:?}: {:?} for {:?}", x, y, plain(r), x * y);
        let x = bits.near(480, 60);
        let y = bits.near(480, 60);
        let r = held(x).times(&held(y));
        assert!(same(r, x * y), "{:?} * {:?}: {:?} for {:?}", x, y, plain(r), x * y);
    }
}

#[test]
fn products_that_overflow_are_the_machines() {
    let mut bits = Bits(0x94D0_49BB_1331_11EB);
    for _ in 0..20000 {
        let x = bits.near(1500, 60);
        let y = bits.near(1500, 80);
        let r = held(x).times(&held(y));
        assert!(same(r, x * y), "{:?} * {:?}: {:?} for {:?}", x, y, plain(r), x * y);
        let x = bits.near(2040, 7);
        let y = bits.near(1020, 6);
        let r = held(x).times(&held(y));
        assert!(same(r, x * y), "{:?} * {:?}: {:?} for {:?}", x, y, plain(r), x * y);
    }
}

#[test]
fn sums_of_specimens_are_the_machines() {
    for x in specimens() {
        for y in specimens() {
            let r = held(x).plus(&held(y));
            assert!(same(r, x + y), "{:?} + {:?}: {:?} for {:?}", x, y, plain(r), x + y);
            let r = held(x).minus(&held(y));
            assert!(same(r, x - y), "{:?} - {:?}: {:?} for {:?}", x, y, plain(r), x - y);
        }
    }
}

#[test]
fn sums_of_arbitrary_patterns_are_the_machines() {
    let mut bits = Bits(0x9E37_79B9_7F4A_7C15);
    for _ in 0..20000 {
        let x = f64::from_bits(bits.next());
        let y = f64::from_bits(bits.next());
        let r = held(x).plus(&held(y));
        assert!(same(r, x + y), "{:?} + {:?}: {:?} for {:?}", x, y, plain(r), x + y);
    }
}

#[test]
fn sums_of_close_numbers_are_the_machines() {
    let mut bits = Bits(0x2545_F491_4F6C_DD1D);
    for _ in 0..40000 {
        let base = 1 + bits.next() % 2040;
        let x = bits.near(base, 3);
        let y = bits.near(base, 3);
        let r = held(x).plus(&held(y));
        assert!(same(r, x + y), "{:?} + {:?}: {:?} for {:?}", x, y, plain(r), x + y);
        let r = held(x).minus(&held(y));
        assert!(same(r, x - y), "{:?} - {:?}: {:?} for {:?}", x, y, plain(r), x - y);
    }
}

#[test]
fn sums_across_binades_are_the_machines() {
    let mut bits = Bits(0xD1B5_4A32_D192_ED03);
    for _ in 0..40000 {
        let base = bits.next() % 1900;
        let x = bits.near(base, 2);
        let y = bits.near(base + 40, 40);
        let r = held(x).plus(&held(y));
        assert!(same(r, x + y), "{:?} + {:?}: {:?} for {:?}", x, y, plain(r), x + y);
        let r = held(y).minus(&held(x));
        assert!(same(r, y - x), "{:?} - {:?}: {:?} for {:?}", y, x, plain(r), y - x);
    }
}

#[test]
fn sums_of_the_smallest_numbers_are_the_machines() {
    let mut bits = Bits(0x94D0_49BB_1331_11EB);
    for _ in 0..20000 {
        let x = bits.near(0, 3);
        let y = bits.near(0, 4);
        let r = held(x).plus(&held(y));
        assert!(same(r, x + y), "{:?} + {:?}: {:?} for {:?}", x, y, plain(r), x + y);
    }
}

#[test]
fn sums_of_the_largest_numbers_are_the_machines() {
    let mut bits = Bits(0xA076_1D64_78BD_642F);
    for _ in 0..20000 {
        let x = bits.near(2044, 3);
        let y = bits.near(2040, 7);
        let r = held(x).plus(&held(y));
        assert!(same(r, x + y), "{:?} + {:?}: {:?} for {:?}", x, y, plain(r), x + y);
    }
}

#[test]
fn zero_sums_have_the_sign_of_the_machine() {
    assert_eq!(held(0.0).plus(&held(-0.0)).to_bits(), 0.0f64.to_bits());
    assert_eq!(held(-0.0).plus(&held(-0.0)).to_bits(), (-0.0f64).to_bits());
    assert_eq!(held(1.5).minus(&held(1.5)).to_bits(), 0.0f64.to_bits());
    assert_eq!(held(-1.5).plus(&held(1.5)).to_bits(), 0.0f64.to_bits());
}

#[test]
fn negation_flips_the_sign_alone() {
    for x in specimens() {
        assert!(same(held(x).negate(), -x) || x.is_nan());
        assert_eq!(held(x).negate().negate().to_bits(), x.to_bits());
    }
}

#[test]
fn quotients_of_specimens_are_the_machines() {
    for x in specimens() {
        for y in specimens() {
            let r = held(x).over(&held(y));
            assert!(same(r, x / y), "{:?} / {:?}: {:?} for {:?}", x, y, plain(r), x / y);
        }
    }
}

#[test]
fn quotients_of_arbitrary_patterns_are_the_machines() {
    let mut bits = Bits(0x9E37_79B9_7F4A_7C15);
    for _ in 0..20000 {
        let x = f64::from_bits(bits.next());
        let y = f64::from_bits(bits.next());
        let r = held(x).over(&held(y));
        assert!(same(r, x / y), "{:?} / {:?}: {:?} for {:?}", x, y, plain(r), x / y);
    }
}

#[test]
fn quotients_around_one_are_the_machines() {
    let mut bits = Bits(0x2545_F491_4F6C_DD1D);
    for _ in 0..40000 {
        let x = bits.near(1010, 30);
        let y = bits.near(1010, 30);
        let r = held(x).over(&held(y));
        assert!(same(r, x / y), "{:?} / {:?}: {:?} for {:?}", x, y, plain(r), x / y);
    }
}

#[test]
fn quotients_that_underflow_are_the_machines() {
    let mut bits = Bits(0xD1B5_4A32_D192_ED03);
    for _ in 0..20000 {
        let x = bits.near(0, 60);
        let y = bits.near(1000, 80);
        let r = held(x).over(&held(y));
        assert!(same(r, x / y), "{:?} / {:?}: {:?} for {:?}", x, y, plain(r), x / y);
        let x = bits.near(480, 60);
        let y = bits.near(1500, 60);
        let r = held(x).over(&held(y));
        assert!(same(r, x / y), "{:?} / {:?}: {:?} for {:?}", x, y, plain(r), x / y);
    }
}

#[test]
fn quotients_that_overflow_are_the_machines() {
    let mut bits = Bits(0x94D0_49BB_1331_11EB);
    for _ in 0..20000 {
        let x = bits.near(1500, 60);
        let y = bits.near(480, 80);
        let r = held(x).over(&held(y));
        assert!(same(r, x / y), "{:?} / {:?}: {:?} for {:?}", x, y, plain(r), x / y);
        let x = bits.near(2040, 7);
        let y = bits.near(0, 30);
        let r = held(x).over(&held(y));
        assert!(same(r, x / y), "{:?} / {:?}: {:?} for {:?}", x, y, plain(r), x / y);
    }
}

#[test]
fn quotients_by_small_whole_numbers_are_the_machines() {
    let mut bits = Bits(0xA076_1D64_78BD_642F);
    for _ in 0..20000 {
        let x = f64::from_bits(bits.next());
        let y = (1 + bits.next() % 1000) as f64;
        let r = held(x).over(&held(y));
        assert!(same(r, x / y), "{:?} / {:?}: {:?} for {:?}", x, y, plain(r), x / y);
    }
}
