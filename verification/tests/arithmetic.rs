use orber::binary32::Binary32;
use orber::binary64::Binary64;

fn b(x: f32) -> Binary32 {
    Binary32::from_bits(x.to_bits())
}

/// The pattern, with every NaN made one.
fn norm(bits: u32) -> u32 {
    if bits & 0x7fff_ffff > 0x7f80_0000 {
        0x7fc0_0000
    } else {
        bits
    }
}

/// Patterns of every kind: zeros, subnormals, ties, infinities, NaN, and many others.
fn patterns() -> Vec<u32> {
    let mut v = vec![
        0, 1, 2, 0x7f_ffff, 0x80_0000, 0x80_0001, 0x3f80_0000, 0x3f80_0001, 0x3f7f_ffff,
        0x3f00_0000, 0x4000_0000, 0x4b00_0000, 0x4b7f_ffff, 0x4b80_0000, 0x4e80_0000, 0x4f00_0000,
        0x4f80_0000, 0x7f7f_ffff, 0x7f80_0000, 0x7fc0_0000, 0x437f_0000, 0x3fc0_0000, 0x4020_0000,
        0x3eff_ffff, 0x42c8_0000, 0x3d4c_cccd, 0x3dcc_cccd,
    ];
    let mut x: u64 = 0x1234_5678_9abc_def1;
    for _ in 0..60 {
        x = x.wrapping_mul(6364136223846793005).wrapping_add(1442695040888963407);
        v.push((x >> 32) as u32);
        // near 1, where sums and differences round most
        v.push(0x3f00_0000 + ((x >> 40) as u32 & 0x00ff_ffff));
    }
    let all: Vec<u32> = v.iter().map(|p| p ^ 0x8000_0000).collect();
    v.extend(all);
    v
}

#[test]
fn sums_and_differences_are_correctly_rounded() {
    let ps = patterns();
    for &p in &ps {
        for &q in &ps {
            let (x, y) = (f32::from_bits(p), f32::from_bits(q));
            let s = Binary32::from_bits(p).add(Binary32::from_bits(q));
            assert_eq!(norm(s.bits), norm((x + y).to_bits()), "{x:e} + {y:e}");
            let d = Binary32::from_bits(p).sub(Binary32::from_bits(q));
            assert_eq!(norm(d.bits), norm((x - y).to_bits()), "{x:e} - {y:e}");
        }
    }
}

#[test]
fn products_and_quotients_are_correctly_rounded() {
    let ps = patterns();
    for &p in &ps {
        for &q in &ps {
            let (x, y) = (f32::from_bits(p), f32::from_bits(q));
            let m = Binary32::from_bits(p).mul(Binary32::from_bits(q));
            assert_eq!(norm(m.bits), norm((x * y).to_bits()), "{x:e} * {y:e}");
            let d = Binary32::from_bits(p).div(Binary32::from_bits(q));
            assert_eq!(norm(d.bits), norm((x / y).to_bits()), "{x:e} / {y:e}");
        }
    }
}

#[test]
fn comparisons_follow_the_numbers() {
    let ps = patterns();
    for &p in &ps {
        for &q in &ps {
            let (x, y) = (f32::from_bits(p), f32::from_bits(q));
            let (a, c) = (Binary32::from_bits(p), Binary32::from_bits(q));
            assert_eq!(a.lt(c), x < y, "{x:e} < {y:e}");
            assert_eq!(a.le(c), x <= y, "{x:e} <= {y:e}");
            assert_eq!(a.eq_num(c), x == y, "{x:e} == {y:e}");
            assert_eq!(a.total_lt(c), x.total_cmp(&y).is_lt(), "{p:x} before {q:x}");
        }
    }
}

#[test]
fn single_operand_functions_follow_the_numbers() {
    for &p in &patterns() {
        let x = f32::from_bits(p);
        let a = Binary32::from_bits(p);
        assert_eq!(norm(a.sqrt().bits), norm(x.sqrt().to_bits()), "sqrt {x:e}");
        assert_eq!(norm(a.floor().bits), norm(x.floor().to_bits()), "floor {x:e}");
        assert_eq!(norm(a.ceil().bits), norm(x.ceil().to_bits()), "ceil {x:e}");
        assert_eq!(norm(a.round().bits), norm(x.round().to_bits()), "round {x:e}");
        assert_eq!(norm(a.abs().bits), norm(x.abs().to_bits()), "abs {x:e}");
        assert_eq!(norm(a.neg().bits), norm((-x).to_bits()), "neg {x:e}");
        assert_eq!(a.to_u8(), x as u8, "{x:e} as u8");
        assert_eq!(a.to_u32(), x as u32, "{x:e} as u32");
        assert_eq!(a.to_i32(), x as i32, "{x:e} as i32");
        assert_eq!(a.is_nan(), x.is_nan());
        assert_eq!(a.is_finite(), x.is_finite());
        assert_eq!(
            norm(a.clamp(b(0.0), b(1.0)).bits),
            norm(x.clamp(0.0, 1.0).to_bits()),
            "clamp {x:e}"
        );
    }
}

#[test]
fn roots_of_many_numbers() {
    let mut p: u32 = 1;
    while p < 0x7f80_0000 {
        let x = f32::from_bits(p);
        assert_eq!(Binary32::from_bits(p).sqrt().bits, x.sqrt().to_bits(), "sqrt {x:e}");
        p += 0x0001_3579;
    }
}

#[test]
fn integers_become_the_nearest_numbers() {
    let mut n: u64 = 1;
    while n < 1 << 60 {
        for d in 0..40 {
            let v = n + d;
            assert_eq!(Binary32::from_u64(v).bits, (v as f32).to_bits(), "{v}");
            assert_eq!(Binary32::from_i64(-(v as i64)).bits, (-(v as f32)).to_bits(), "-{v}");
            assert_eq!(Binary64::from_u64(v).bits, (v as f64).to_bits(), "{v}");
        }
        n *= 3;
    }
    assert_eq!(Binary32::from_u64(0).bits, 0);
    assert_eq!(Binary32::from_u128(1 << 80).bits, ((1u128 << 80) as f32).to_bits());
}

#[test]
fn double_quotients_are_correctly_rounded() {
    let ns: [u64; 9] = [0, 1, 2, 3, 7, 255, 65535, 65536, 16_711_680];
    for &n in &ns {
        for &d in &ns {
            if d > 0 {
                let q = Binary64::from_u64(n).div(Binary64::from_u64(d));
                let x = n as f64 / d as f64;
                assert_eq!(q.bits, x.to_bits(), "{n} / {d}");
                assert_eq!(q.to_binary32().bits, (x as f32).to_bits());
                for &e in &ns {
                    if e > 0 {
                        let r = q.div(Binary64::from_u64(e));
                        assert_eq!(r.bits, (x / e as f64).to_bits());
                        assert_eq!(r.min_one().bits, (x / e as f64).clamp(0.0, 1.0).to_bits());
                    }
                }
            }
        }
    }
}
