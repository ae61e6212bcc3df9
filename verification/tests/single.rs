use quartet_splitter::order::{find_first_min, find_last_max, sort, sum_range};
use quartet_splitter::single::Single;

fn s(x: f32) -> Single {
    Single { bits: x.to_bits() }
}

fn same(x: Single, y: f32) -> bool {
    if y.is_nan() {
        x.is_nan()
    } else {
        x.bits == y.to_bits()
    }
}

fn samples() -> Vec<u32> {
    let mut v: Vec<u32> = vec![
        0, 1, 2, 0x007f_ffff, 0x0080_0000, 0x0080_0001, 0x00ff_ffff, 0x0100_0000, 0x3f80_0000,
        0x3f7f_ffff, 0x3f80_0001, 0x4000_0000, 0x4b7f_ffff, 0x4b80_0000, 0x7f7f_ffff, 0x7f80_0000,
        0x7fc0_0000, 0x4f80_0000, 0x4f7f_ffff, 0x3f00_0000, 0x3eff_ffff, 0x2000_0000, 0x6000_0000,
    ];
    let mut state: u32 = 0x1234_5678;
    for _ in 0..180 {
        state = state.wrapping_mul(1_664_525).wrapping_add(1_013_904_223);
        v.push(state);
        v.push(0x4000_0000 | (state >> 6));
    }
    let n = v.len();
    for i in 0..n {
        v.push(v[i] ^ 0x8000_0000);
    }
    v
}

#[test]
fn arithmetic_agrees_with_the_machine() {
    let v = samples();
    for &a in &v {
        for &b in &v {
            let (x, y) = (f32::from_bits(a), f32::from_bits(b));
            let (p, q) = (Single { bits: a }, Single { bits: b });
            assert!(same(p.plus(q), x + y), "{} + {}", x, y);
            assert!(same(p.minus(q), x - y), "{} - {}", x, y);
            assert!(same(p.times(q), x * y), "{} * {}", x, y);
            assert!(same(p.over(q), x / y), "{} / {}", x, y);
            assert_eq!(p.lt(q), x < y);
            assert_eq!(p.le(q), x <= y);
        }
    }
}

#[test]
fn a_sum_rounds_to_even() {
    assert_eq!(s(16777216.0).plus(s(1.0)), s(16777216.0));
    assert_eq!(s(16777218.0).plus(s(1.0)), s(16777220.0));
    assert_eq!(s(0.1).plus(s(0.2)), s(0.3));
}

#[test]
fn comparisons_and_limits_agree_with_the_machine() {
    let v = samples();
    for &a in v.iter().step_by(3) {
        let (x, p) = (f32::from_bits(a), Single { bits: a });
        assert_eq!(p.is_nan(), x.is_nan());
        assert_eq!(p.neg().bits, (-x).to_bits());
        assert_eq!(p.to_u32(), x as u32);
        assert_eq!(p.to_usize(), x as usize);
        assert_eq!(p.to_u8(), x as u8);
        assert_eq!(p.to_i32(), x as i32);
        assert_eq!(p.ceil_to_u32(), x.ceil() as u32);
        assert_eq!(p.round_to_u32(), x.round() as u32);
        assert_eq!(p.round_to_usize(), x.round() as usize);
        assert!(same(p.clamp(s(-2.5), s(1.0e6)), x.clamp(-2.5, 1.0e6)));
        for &b in v.iter().step_by(7) {
            let (y, q) = (f32::from_bits(b), Single { bits: b });
            // Of the two zeros either may be the smaller.
            if x != 0.0 || y != 0.0 {
                assert!(same(p.min(q), x.min(y)));
                assert!(same(p.max(q), x.max(y)));
            }
        }
    }
}

#[test]
fn whole_numbers_become_the_nearest() {
    let mut n: u64 = 1;
    for _ in 0..64 {
        for k in [n - 1, n, n + 1, n | 0x1234_5678, n.wrapping_mul(0x9e37_79b9)] {
            assert_eq!(Single::from_u64(k), s(k as f32));
            assert_eq!(Single::from_u32(k as u32), s(k as u32 as f32));
            assert_eq!(Single::from_usize(k as usize), s(k as usize as f32));
            assert_eq!(Single::from_i64(k as i64), s(k as i64 as f32));
        }
        n = n.wrapping_mul(2).max(1);
    }
    assert_eq!(Single::from_i64(i64::MIN), s(i64::MIN as f32));
}

#[test]
fn lists_are_summed_and_ordered() {
    let v: Vec<Single> = [3.0, -1.5, 7.25, 3.0, -1.5, 7.25].iter().map(|&x| s(x)).collect();
    assert_eq!(sum_range(&v, 0, 6), s(17.5));
    assert_eq!(sum_range(&v, 1, 3), s(5.75));
    assert_eq!(sum_range(&v, 2, 2), s(-0.0));
    let sorted: Vec<Single> = [-1.5, -1.5, 3.0, 3.0, 7.25, 7.25].iter().map(|&x| s(x)).collect();
    assert_eq!(sort(&v), sorted);
    assert_eq!(find_last_max(&v), 5);
    assert_eq!(find_first_min(&v), 1);
}
