use fraud::decimal::parse_decimal;
use fraud::single::Single;

fn bits(value: f32) -> Single {
    Single { bits: value.to_bits() }
}

#[test]
fn decimals_denote_the_closest_single() {
    for text in [
        "0", "-0", "1", "41.12", "82.24", "0.1", "1e10", "1e-10", "3.4028235e38", "3.4028236e38",
        "1e39", "1e-45", "7e-46", "1.17549435e-38", "16777217", "16777219", "0.000000000000000001",
        "123456789012345678901234567890", "1E5", "5.", ".5", "+7", "1e99999999999999999999999999999999",
        "1e-99999999999999999999999999999999", "0e99999999999999999999999999999999999999999", "29.23", "1e+2",
        "340282356779733661637539395458142568447.999", "340282356779733661637539395458142568448",
    ] {
        assert_eq!(parse_decimal(text.as_bytes()), Some(bits(text.parse::<f32>().unwrap())), "{text}");
    }
    for text in ["", "-", "+", ".", "e5", "1e", "1e+", "1-2", "--1", "1.2.3", "1e5.0", "1e5e5"] {
        assert_eq!(parse_decimal(text.as_bytes()), None, "{text}");
        assert!(text.parse::<f32>().is_err());
    }
}

#[test]
fn arithmetic_is_that_of_the_processor() {
    let mut state: u64 = 88172645463325252;
    let mut next = || {
        state ^= state << 13;
        state ^= state >> 7;
        state ^= state << 17;
        (state >> 16) as u32
    };
    let special = [
        0u32, 0x8000_0000, 1, 0x8000_0001, 0x7f7f_ffff, 0xff7f_ffff, 0x7f80_0000, 0xff80_0000, 0x7fc0_0000,
        0x3f80_0000, 0xbf80_0000, 0x0080_0000, 0x007f_ffff, 0x4b00_0000, 0x4b7f_ffff, 0x3f7f_ffff,
    ];
    for round in 0..200_000 {
        let (mut x, mut y) = (next(), next());
        if round % 5 == 0 {
            x = special[(x % 16) as usize];
        }
        if round % 7 == 0 {
            y = special[(y % 16) as usize];
        }
        if round % 3 == 0 {
            y = (y & 0x807f_ffff) | (x & 0x7f80_0000);
        }
        let (a, b) = (f32::from_bits(x), f32::from_bits(y));
        let (p, q) = (Single { bits: x }, Single { bits: y });
        for (ours, theirs) in [
            (p.plus(q), a + b),
            (p.minus(q), a - b),
            (p.times(q), a * b),
            (p.over(q), a / b),
        ] {
            if theirs.is_nan() {
                assert!(ours.check_nan());
            } else {
                assert_eq!(ours.bits, theirs.to_bits(), "{a} {b}");
            }
        }
        assert_eq!(p.lt(q), a < b);
        assert_eq!(p.ge(q), a >= b);
        let n = (x as u64) << (y % 33);
        assert_eq!(Single::from_integer(n).bits, (n as f32).to_bits());
    }
}
