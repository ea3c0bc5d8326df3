use tile3d::float::{F32, F64};

/// Numbers of a simple generator, the same in every run.
struct Numbers {
    state: u64,
}

impl Numbers {
    fn next(&mut self) -> u64 {
        self.state ^= self.state << 13;
        self.state ^= self.state >> 7;
        self.state ^= self.state << 17;
        self.state
    }
}

fn edges64() -> Vec<u64> {
    let mut v: Vec<u64> = vec![
        0,
        1,
        2,
        0x000f_ffff_ffff_ffff,
        0x0010_0000_0000_0000,
        0x0010_0000_0000_0001,
        0x3fe0_0000_0000_0000,
        0x3fef_ffff_ffff_ffff,
        0x3ff0_0000_0000_0000,
        0x3ff0_0000_0000_0001,
        0x4000_0000_0000_0000,
        0x4340_0000_0000_0000,
        0x433f_ffff_ffff_ffff,
        0x43ef_ffff_ffff_ffff,
        0x43f0_0000_0000_0000,
        0x7fe0_0000_0000_0000,
        0x7fef_ffff_ffff_ffff,
        0x7ff0_0000_0000_0000,
        0x7ff8_0000_0000_0000,
        0x7ff0_0000_0000_0001,
    ];
    for i in 0..v.len() {
        let x = v[i];
        v.push(x | 0x8000_0000_0000_0000);
    }
    v
}

fn edges32() -> Vec<u32> {
    let mut v: Vec<u32> = vec![
        0,
        1,
        2,
        0x007f_ffff,
        0x0080_0000,
        0x0080_0001,
        0x3eff_ffff,
        0x3f00_0000,
        0x3f7f_ffff,
        0x3f80_0000,
        0x3f80_0001,
        0x4000_0000,
        0x4020_0000,
        0x4b00_0000,
        0x4b80_0000,
        0x4eff_ffff,
        0x4f00_0000,
        0x4f7f_ffff,
        0x4f80_0000,
        0x7f00_0000,
        0x7f7f_ffff,
        0x7f80_0000,
        0x7fc0_0000,
        0x7f80_0001,
    ];
    for i in 0..v.len() {
        let x = v[i];
        v.push(x | 0x8000_0000);
    }
    v
}

fn pairs64() -> Vec<(u64, u64)> {
    let e = edges64();
    let mut v: Vec<(u64, u64)> = Vec::new();
    for a in &e {
        for b in &e {
            v.push((*a, *b));
        }
    }
    let mut n = Numbers { state: 0x9e37_79b9_7f4a_7c15 };
    for _ in 0..4000 {
        let a = n.next();
        let b = n.next();
        v.push((a, b));
        // Numbers of about the same size, where digits cancel.
        let near = (a & 0xfff0_0000_0000_0000) | (b & 0x000f_ffff_ffff_ffff);
        v.push((a, near));
        v.push((a, near ^ 0x8000_0000_0000_0000));
        // Numbers of everyday size.
        let c = 0x3f00_0000_0000_0000 | (a & 0x81ff_ffff_ffff_ffff);
        let d = 0x3f00_0000_0000_0000 | (b & 0x81ff_ffff_ffff_ffff);
        v.push((c, d));
        // Small and subnormal ones.
        v.push((a & 0x803f_ffff_ffff_ffff, b & 0xbfff_ffff_ffff_ffff));
    }
    v
}

fn pairs32() -> Vec<(u32, u32)> {
    let e = edges32();
    let mut v: Vec<(u32, u32)> = Vec::new();
    for a in &e {
        for b in &e {
            v.push((*a, *b));
        }
    }
    let mut n = Numbers { state: 0x2545_f491_4f6c_dd1d };
    for _ in 0..4000 {
        let a = n.next() as u32;
        let b = n.next() as u32;
        v.push((a, b));
        let near = (a & 0xff80_0000) | (b & 0x007f_ffff);
        v.push((a, near));
        v.push((a, near ^ 0x8000_0000));
        v.push((0x3e00_0000 | (a & 0x83ff_ffff), 0x3e00_0000 | (b & 0x83ff_ffff)));
        v.push((a & 0x80ff_ffff, b & 0xbfff_ffff));
    }
    v
}

fn same64(ours: F64, native: f64) -> bool {
    if native.is_nan() {
        ours.bits == 0x7ff8_0000_0000_0000
    } else {
        ours.bits == native.to_bits()
    }
}

fn same32(ours: F32, native: f32) -> bool {
    if native.is_nan() {
        ours.bits == 0x7fc0_0000
    } else {
        ours.bits == native.to_bits()
    }
}

#[test]
fn arithmetic_64_is_that_of_the_machine() {
    for (a, b) in pairs64() {
        let (x, y) = (F64 { bits: a }, F64 { bits: b });
        let (p, q) = (f64::from_bits(a), f64::from_bits(b));
        assert!(same64(x.plus(y), p + q), "{:x} + {:x}", a, b);
        assert!(same64(x.minus(y), p - q), "{:x} - {:x}", a, b);
        assert!(same64(x.times(y), p * q), "{:x} * {:x}", a, b);
        assert!(same64(x.over(y), p / q), "{:x} / {:x}", a, b);
    }
}

#[test]
fn arithmetic_32_is_that_of_the_machine() {
    for (a, b) in pairs32() {
        let (x, y) = (F32 { bits: a }, F32 { bits: b });
        let (p, q) = (f32::from_bits(a), f32::from_bits(b));
        assert!(same32(x.plus(y), p + q), "{:x} + {:x}", a, b);
        assert!(same32(x.minus(y), p - q), "{:x} - {:x}", a, b);
        assert!(same32(x.times(y), p * q), "{:x} * {:x}", a, b);
        assert!(same32(x.over(y), p / q), "{:x} / {:x}", a, b);
    }
}

#[test]
fn roots_are_those_of_the_machine() {
    for (a, _) in pairs64() {
        let r = f64::from_bits(a).sqrt();
        assert!(same64(F64 { bits: a }.root(), r), "{:x}", a);
    }
    for (a, _) in pairs32() {
        let r = f32::from_bits(a).sqrt();
        assert!(same32(F32 { bits: a }.root(), r), "{:x}", a);
    }
}

#[test]
fn comparisons_are_those_of_the_machine() {
    for (a, b) in pairs64() {
        let (x, y) = (F64 { bits: a }, F64 { bits: b });
        let (p, q) = (f64::from_bits(a), f64::from_bits(b));
        assert_eq!(x.lt(y), p < q);
        assert_eq!(x.le(y), p <= q);
        assert_eq!(x.same(y), p == q);
        assert_eq!(x.is_nan(), p.is_nan());
        assert_eq!(x.is_finite(), p.is_finite());
        assert_eq!(x.negate().bits, (-p).to_bits());
        if !p.is_nan() || !q.is_nan() {
            assert!(f64::from_bits(x.max(y).bits) == p.max(q), "{:x} {:x}", a, b);
            assert!(f64::from_bits(x.min(y).bits) == p.min(q), "{:x} {:x}", a, b);
        }
    }
    for (a, b) in pairs32() {
        let (x, y) = (F32 { bits: a }, F32 { bits: b });
        let (p, q) = (f32::from_bits(a), f32::from_bits(b));
        assert_eq!(x.lt(y), p < q);
        assert_eq!(x.le(y), p <= q);
        assert_eq!(x.same(y), p == q);
        assert_eq!(x.is_nan(), p.is_nan());
        assert_eq!(x.is_finite(), p.is_finite());
        assert_eq!(x.negate().bits, (-p).to_bits());
        if !p.is_nan() || !q.is_nan() {
            assert!(f32::from_bits(x.max(y).bits) == p.max(q), "{:x} {:x}", a, b);
            assert!(f32::from_bits(x.min(y).bits) == p.min(q), "{:x} {:x}", a, b);
        }
    }
}

#[test]
fn conversions_are_those_of_the_machine() {
    for (a, b) in pairs64() {
        let p = f64::from_bits(a);
        let x = F64 { bits: a };
        assert!(same32(x.narrow(), p as f32), "{:x}", a);
        assert_eq!(x.to_uint(u64::MAX), p as u64);
        assert_eq!(x.to_uint(u32::MAX as u64), (p as u32) as u64);
        assert_eq!(F64::from_uint(a).bits, (a as f64).to_bits());
        assert_eq!(F64::from_uint(b >> 11).bits, ((b >> 11) as f64).to_bits());
        assert_eq!(F32::from_uint(a).bits, (a as f32).to_bits());
    }
    for (a, _) in pairs32() {
        let p = f32::from_bits(a);
        let x = F32 { bits: a };
        assert!(same64(x.widen(), p as f64), "{:x}", a);
        assert_eq!(x.to_uint(u64::MAX), p as u64);
        assert_eq!(x.round_int(), p.round() as i32, "{:x}", a);
        assert_eq!(x.round_uint(), p.round() as u32, "{:x}", a);
    }
}

#[test]
fn halves_round_to_even_and_to_far() {
    // Beyond 2^53 only even integers are left.
    assert_eq!(F64::from_uint(9007199254740993).bits, 9007199254740992.0_f64.to_bits());
    assert_eq!(F64::from_uint(9007199254740995).bits, 9007199254740996.0_f64.to_bits());
    assert_eq!(F32 { bits: 2.5_f32.to_bits() }.round_int(), 3);
    assert_eq!(F32 { bits: (-2.5_f32).to_bits() }.round_int(), -3);
    assert_eq!(F32 { bits: 0.49999997_f32.to_bits() }.round_uint(), 0);
    assert_eq!(F32 { bits: 0x7fc0_0000 }.round_int(), 0);
    assert_eq!(F32 { bits: 1.0e20_f32.to_bits() }.round_int(), i32::MAX);
}

#[test]
fn adding_a_margin_keeps_order() {
    for (a, b) in pairs64() {
        let (x, y) = (F64 { bits: a }, F64 { bits: b & 0x7fff_ffff_ffff_ffff });
        if x.is_finite() && y.is_finite() {
            assert!(x.le(x.plus(y)));
            assert!(x.minus(y).le(x));
        }
    }
}

#[test]
fn midpoints_lie_between() {
    let half = F64 { bits: 0.5_f64.to_bits() };
    let xs: [f64; 9] = [-3.5e307, -1.0, -0.0, 5e-324, 1e-323, 0.1, 0.30000000000000004, 7.0, 8.9e307];
    for a in xs {
        for b in xs {
            let (lo, hi) = if a < b { (a, b) } else { (b, a) };
            let (x, y) = (F64 { bits: lo.to_bits() }, F64 { bits: hi.to_bits() });
            let m = x.plus(y).times(half);
            assert!(x.le(m) && m.le(y));
            assert_eq!(f64::from_bits(m.bits), (lo + hi) * 0.5);
        }
    }
}
