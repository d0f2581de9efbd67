use ryu_js::d2s::{d2d, decimal_length, FloatFormat, FloatingDecimal64};
use ryu_js::Buffer;
use std::str;

fn pretty(f: f64) -> String {
    Buffer::new().format(f.to_bits()).to_owned()
}

fn pretty32(f: f32) -> String {
    Buffer::new().format(f.to_bits()).to_owned()
}

fn to_fixed(f: f64, digits: u8) -> String {
    Buffer::new().format_to_fixed(f.to_bits(), digits).to_owned()
}

fn scientific(f: f64) -> String {
    let mut bytes: Vec<u8> = Vec::new();
    ryu_js::d2s_buffered_n(f.to_bits(), &mut bytes);
    String::from_utf8(bytes).unwrap()
}

fn scientific32(f: f32) -> String {
    let mut bytes: Vec<u8> = Vec::new();
    ryu_js::f2s_buffered_n(f.to_bits(), &mut bytes);
    String::from_utf8(bytes).unwrap()
}

#[test]
fn notation_boundaries() {
    assert_eq!(pretty(0.0000001), "1e-7");
    assert_eq!(pretty(0.000001), "0.000001");
    assert_eq!(pretty(1.1111111111111111e21), "1.1111111111111111e+21");
    assert_eq!(pretty(123.0), "123");
    assert_eq!(pretty(1e21), "1e+21");
    assert_eq!(pretty(1e20), "100000000000000000000");
}

#[test]
fn to_fixed_exactness() {
    assert_eq!(to_fixed(1010.954526123, 2), "1010.95");
    assert_eq!(to_fixed(1.25, 1), "1.3");
    assert_eq!(to_fixed(0.1, 50), "0.10000000000000000555111512312578270211815834045410");
}

#[test]
fn to_fixed_fallback() {
    assert_eq!(to_fixed(1e21, 1), pretty(1e21));
    assert_eq!(to_fixed(-1e21, 1), "-1e+21");
}

#[test]
fn zero_handling() {
    assert_eq!(pretty(-0.0), "0");
    assert_eq!(to_fixed(-0.0, 3), "0.000");
    assert_eq!(pretty32(-0.0), "0");
}

#[test]
fn to_fixed_carry_and_sign() {
    assert_eq!(to_fixed(99.99, 1), "100.0");
    assert_eq!(to_fixed(0.5, 0), "1");
    assert_eq!(to_fixed(-1.5, 0), "-2");
    assert_eq!(to_fixed(-0.0001, 2), "-0.00");
    assert_eq!(to_fixed(9.995, 2), "9.99");
    assert_eq!(to_fixed(1e-7, 20), "0.00000010000000000000");
    assert_eq!(to_fixed(123.456, 0), "123");
}

#[test]
fn tie_to_even() {
    // 2^-25 is exactly 2.98023223876953125e-8: the shortest candidates
    // ...5312 and ...5313 are equally near, the even one is taken.
    assert_eq!(scientific(2.98023223876953125e-8), "2.9802322387695312E-8");
    assert_eq!(scientific32(305404.12), "3.0540412E5");
    assert_eq!(scientific32(8099.0312), "8.0990312E3");
}

#[test]
fn round_trip_and_idempotence() {
    for _ in 0..3000 {
        let f = f64::from_bits(rand::random::<u64>());
        if !f.is_finite() {
            continue;
        }
        let s = pretty(f);
        let g: f64 = s.parse().unwrap();
        assert_eq!(g.to_bits(), if f == 0.0 { 0 } else { f.to_bits() });
        assert_eq!(pretty(g), s);
        let t = scientific(f);
        assert_eq!(t.parse::<f64>().unwrap().to_bits(), f.to_bits());
        let h = f32::from_bits(rand::random::<u32>());
        if h.is_finite() {
            let u = pretty32(h);
            let v: f32 = u.parse().unwrap();
            assert_eq!(v.to_bits(), if h == 0.0 { 0 } else { h.to_bits() });
            assert_eq!(pretty32(v), u);
        }
    }
}

#[test]
fn shortest_against_std() {
    // std's Display prints a shortest round-trip decimal too: the digit
    // counts agree (the digits may differ on exact ties, which are broken
    // toward even here).
    for _ in 0..3000 {
        let f = f64::from_bits(rand::random::<u64>());
        if !f.is_finite() || f == 0.0 {
            continue;
        }
        let ours = scientific(f.abs());
        let std = format!("{:e}", f.abs());
        let digits = |s: &str| s.split(|c| c == 'e' || c == 'E').next().unwrap().replace('.', "").len();
        assert_eq!(digits(&ours), digits(&std), "bits {:x}", f.to_bits());
    }
}

#[test]
fn exact_tie_goes_to_even() {
    // -1095201881758408.25 lies halfway between ...408.2 and ...408.3.
    assert_eq!(pretty(f64::from_bits(0xc30f20a478f4d642)), "-1095201881758408.2");
}

#[test]
fn buffer_bounds() {
    for _ in 0..3000 {
        let f = f64::from_bits(rand::random::<u64>());
        if f.is_finite() {
            assert!(scientific(f).len() <= 24);
            assert!(pretty(f).len() <= 25);
        }
        let h = f32::from_bits(rand::random::<u32>());
        if h.is_finite() {
            assert!(scientific32(h).len() <= 16);
            assert!(pretty32(h).len() <= 22);
        }
    }
    for _ in 0..3000 {
        let f = f64::from_bits(rand::random::<u64>());
        if f.is_finite() {
            assert!(to_fixed(f, 100).len() <= 132);
        }
    }
    assert!(to_fixed(-9.999999999999999e20, 100).len() <= 132);
    // The layouts with leading zeros, or with up to 21 integer digits, take
    // more than the scientific form.
    assert_eq!(pretty(-0.0000015809161985788154).len(), 25);
    assert_eq!(pretty32(-1e20), "-100000000000000000000");
}

#[test]
fn human_layout() {
    let human = |f: f64| {
        let mut bytes: Vec<u8> = Vec::new();
        ryu_js::pretty::d2s_buffered_n(f.to_bits(), &mut bytes);
        String::from_utf8(bytes).unwrap()
    };
    let human32 = |f: f32| {
        let mut bytes: Vec<u8> = Vec::new();
        ryu_js::pretty::f2s_buffered_n(f.to_bits(), &mut bytes);
        String::from_utf8(bytes).unwrap()
    };
    assert_eq!(human(0.0), "0.0");
    assert_eq!(human(-0.0), "-0.0");
    assert_eq!(human(1e-7), "1e-7");
    assert_eq!(human(1.5e300), "1.5e300");
    assert_eq!(human32(1.0), "1.0");
    assert_eq!(human32(-0.001234), "-0.001234");
    assert_eq!(human32(1.1e32), "1.1e32");
}

#[test]
fn special_values() {
    assert_eq!(scientific(f64::NAN), "NaN");
    assert_eq!(scientific(f64::NEG_INFINITY), "-Infinity");
    assert_eq!(scientific32(f32::INFINITY), "Infinity");
    assert_eq!(scientific32(-0.0), "-0E0");
    assert_eq!(pretty32(f32::NAN), "NaN");
}

#[test]
fn generator_and_writers() {
    let v = d2d(FloatFormat::Binary64, 0x3333333333333, 1021);
    assert_eq!((v.mantissa, v.exponent), (3, -1));
    let w = d2d(FloatFormat::Binary32, 0, 127);
    assert_eq!((w.mantissa, w.exponent), (1, 0));
    assert_eq!(decimal_length(0), 1);
    assert_eq!(decimal_length(u64::MAX), 20);
    let mut out: Vec<u8> = Vec::new();
    let n = ryu_js::pretty::write_pretty(
        FloatingDecimal64 { mantissa: 1234, exponent: -6 },
        true,
        ryu_js::pretty::Notation::Ecmascript,
        &mut out,
    );
    assert_eq!(n, 9);
    assert_eq!(out, b"-0.001234".to_vec());
    assert_eq!(ryu_js::umul128(u64::MAX, u64::MAX), (1, u64::MAX - 1));
    assert_eq!(ryu_js::shiftright128(0, 1, 4), 1u64 << 60);
}

#[test]
fn cursor_starts_empty() {
    let _cursor = ryu_js::pretty::to_fixed::Cursor::new(ryu_js::pretty::to_fixed::MAX_BUFFER_SIZE);
    assert_eq!(ryu_js::pretty::to_fixed::MAX_BUFFER_SIZE, 132);
}

#[test]
fn to_fixed_layout() {
    for _ in 0..3000 {
        let f = f64::from_bits(rand::random::<u64>());
        if !f.is_finite() || f.abs() >= 1e21 {
            continue;
        }
        let d: u8 = rand::random::<u8>() % 101;
        let s = to_fixed(f, d);
        let body = s.strip_prefix('-').unwrap_or(&s);
        assert_eq!(s.starts_with('-'), f.is_sign_negative() && f != 0.0);
        if d == 0 {
            assert!(body.bytes().all(|b| b.is_ascii_digit()));
        } else {
            let (int, frac) = body.split_once('.').unwrap();
            assert!(!int.is_empty() && int.bytes().all(|b| b.is_ascii_digit()));
            assert_eq!(frac.len(), d as usize);
            assert!(frac.bytes().all(|b| b.is_ascii_digit()));
        }
    }
}

#[test]
fn buffer_default_and_clone() {
    let mut a = Buffer::default();
    assert_eq!(a.format(1.5f64.to_bits()), "1.5");
    let mut b = a.clone();
    assert_eq!(b.format_finite(2.5f32.to_bits()), "2.5");
}
