use octree::binary32::{is_nan, le, lt, maximum, minimum, same_number};
use octree::midpoint::{half, midpoint, sum};

fn next(state: &mut u64) -> u32 {
    *state = state.wrapping_mul(6364136223846793005).wrapping_add(1442695040888963407);
    (*state >> 32) as u32
}

fn agree(got: u32, want: f32) -> bool {
    if want.is_nan() {
        is_nan(got)
    } else {
        got == want.to_bits()
    }
}

const EDGES: [u32; 24] = [
    0x0000_0000, 0x8000_0000, 0x0000_0001, 0x8000_0001, 0x0000_0002, 0x0000_0003,
    0x007f_ffff, 0x0080_0000, 0x0080_0001, 0x00ff_ffff, 0x0100_0000, 0x3f80_0000,
    0xbf80_0000, 0x4000_0000, 0x4120_0000, 0x7f00_0000, 0x7f7f_ffff, 0xff7f_ffff,
    0x7f80_0000, 0xff80_0000, 0x7fc0_0000, 0xffc0_0001, 0x7f7f_fffe, 0x3400_0000,
];

#[test]
fn test_sum_matches_hardware_on_edges() {
    for &a in EDGES.iter() {
        for &b in EDGES.iter() {
            let want = f32::from_bits(a) + f32::from_bits(b);
            assert!(agree(sum(a, b), want), "{:#x} + {:#x}: {:#x} vs {:#x}", a, b, sum(a, b), want.to_bits());
        }
    }
}

#[test]
fn test_half_matches_hardware_on_edges() {
    for &a in EDGES.iter() {
        let want = f32::from_bits(a) / 2.0;
        assert!(agree(half(a), want), "{:#x} / 2: {:#x} vs {:#x}", a, half(a), want.to_bits());
    }
}

#[test]
fn test_midpoint_matches_hardware_on_random_patterns() {
    let mut state: u64 = 0x2545_f491_4f6c_dd1d;
    for _ in 0..400_000 {
        let a = next(&mut state);
        let b = next(&mut state);
        let want = (f32::from_bits(a) + f32::from_bits(b)) / 2.0;
        assert!(agree(midpoint(a, b), want), "{:#x} {:#x}", a, b);
    }
}

#[test]
fn test_sum_matches_hardware_on_close_exponents() {
    let mut state: u64 = 0x9e37_79b9_7f4a_7c15;
    for _ in 0..400_000 {
        let a = next(&mut state);
        let shift = next(&mut state) % 80;
        let flip = next(&mut state) & 0x8000_0000;
        let frac = next(&mut state) & 0x007f_ffff;
        let exp = ((a >> 23) & 0xff).saturating_sub(shift.saturating_sub(40)).min(254);
        let b = flip | (exp << 23) | frac;
        let want = f32::from_bits(a) + f32::from_bits(b);
        assert!(agree(sum(a, b), want), "{:#x} + {:#x}", a, b);
        let want_half = f32::from_bits(b) / 2.0;
        assert!(agree(half(b), want_half), "{:#x} / 2", b);
    }
}

#[test]
fn test_comparisons_match_hardware() {
    let mut state: u64 = 0x1234_5678_9abc_def0;
    for round in 0..200_000 {
        let (a, b) = if round < EDGES.len() * EDGES.len() {
            (EDGES[round / EDGES.len()], EDGES[round % EDGES.len()])
        } else {
            (next(&mut state), next(&mut state))
        };
        let (x, y) = (f32::from_bits(a), f32::from_bits(b));
        assert_eq!(le(a, b), x <= y);
        assert_eq!(lt(a, b), x < y);
        assert_eq!(same_number(a, b), x == y);
        assert_eq!(is_nan(a), x.is_nan());
        let lo = f32::from_bits(minimum(a, b));
        let hi = f32::from_bits(maximum(a, b));
        if x.is_nan() && y.is_nan() {
            assert!(lo.is_nan() && hi.is_nan());
        } else {
            assert!(lo == x.min(y));
            assert!(hi == x.max(y));
        }
    }
}

#[test]
fn test_midpoint_exact_values() {
    assert_eq!(midpoint(0.0f32.to_bits(), 10.0f32.to_bits()), 5.0f32.to_bits());
    assert_eq!(midpoint((-1.0f32).to_bits(), 0.0f32.to_bits()), (-0.5f32).to_bits());
    assert_eq!(midpoint(f32::MAX.to_bits(), f32::MIN.to_bits()), 0.0f32.to_bits());
    assert_eq!(midpoint(f32::MAX.to_bits(), f32::MAX.to_bits()), f32::INFINITY.to_bits());
    assert_eq!(midpoint(1, 0), 0);
    assert_eq!(midpoint(3, 0), 2);
}
