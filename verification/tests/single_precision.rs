use mover_nav::heuristic::distance;
use mover_nav::navigation::NavigationSystem;
use mover_nav::single::{round_to_single, single_of_i32, single_quotient_key};

/// A small deterministic generator for sample values.
struct Lcg(u64);

impl Lcg {
    fn next(&mut self) -> u64 {
        self.0 = self.0.wrapping_mul(6364136223846793005).wrapping_add(1442695040888963407);
        self.0 >> 11
    }
}

fn key_value(k: (i64, u64, i64)) -> f64 {
    (k.0 as f64) * (k.1 as f64) * 2f64.powi((8 - k.2) as i32)
}

#[test]
fn rounding_matches_f32_conversion() {
    let mut rng = Lcg(7);
    let edges: [u64; 10] = [0, 1, 16_777_215, 16_777_216, 16_777_217, 16_777_218, 16_777_219, 33_554_435, 2_147_483_647, 4_294_967_295];
    for &n in edges.iter() {
        assert_eq!(round_to_single(n), (n as f32) as u64, "n = {}", n);
    }
    for shift in 0..62u32 {
        for _ in 0..200 {
            let n = rng.next() >> (62 - shift).min(63);
            let n = n & ((1u64 << 62) - 1);
            assert_eq!(round_to_single(n), (n as f32) as u64, "n = {}", n);
        }
    }
}

#[test]
fn signed_rounding_matches_f32_conversion() {
    let values: [i32; 8] = [0, -1, 1, i32::MIN, i32::MAX, -16_777_217, 16_777_219, -33_554_433];
    for &v in values.iter() {
        assert_eq!(single_of_i32(v), (v as f32) as i64, "v = {}", v);
    }
}

#[test]
fn quotient_key_matches_f32_division() {
    let mut rng = Lcg(11);
    let samples: [i32; 12] = [0, 1, -1, 2, 3, -7, 100, 16_777_217, -16_777_215, i32::MAX, i32::MIN, 1_000_003];
    let mut pairs: Vec<(i32, i32)> = Vec::new();
    for &a in samples.iter() {
        for &b in samples.iter() {
            if b != 0 {
                pairs.push((a, b));
            }
        }
    }
    for _ in 0..5000 {
        let a = (rng.next() as u32) as i32 >> (rng.next() % 31);
        let b = (rng.next() as u32) as i32 >> (rng.next() % 31);
        if b != 0 {
            pairs.push((a, b));
        }
    }
    for &(a, b) in pairs.iter() {
        let fa = single_of_i32(a);
        let fb = single_of_i32(b);
        let expected = (a as f32) / (b as f32);
        let key = single_quotient_key(fa, fb);
        assert_eq!(key_value(key), expected as f64, "a = {}, b = {}", a, b);
        if key.0 != 0 {
            assert!(key.1 >= 1 << 23 && key.1 < 1 << 24, "a = {}, b = {}", a, b);
        }
    }
}

#[test]
fn heuristic_distance_matches_single_precision() {
    let points: [(i32, i32); 9] = [
        (0, 0),
        (3, -4),
        (-1_000_000, 7),
        (16_777_216, 1),
        (1_073_741_823, -1_073_741_824),
        (-1_073_741_824, 1_073_741_823),
        (5, 16_777_213),
        (i32::MAX / 2, i32::MIN / 2),
        (123_456_789, -98_765_432),
    ];
    for &o in points.iter() {
        for &e in points.iter() {
            let dx = (o.0 as i64 - e.0 as i64).unsigned_abs() as u32;
            let dy = (o.1 as i64 - e.1 as i64).unsigned_abs() as u32;
            let expected = (1.0f32 * ((dx + dy) as f32)) as u32;
            assert_eq!(distance(&o, &e), expected, "o = {:?}, e = {:?}", o, e);
        }
    }
}

#[test]
fn planner_distance_matches_single_precision() {
    let points: [(i32, i32); 8] = [
        (0, 0),
        (3, -4),
        (-1_000_000, 7),
        (16_777_216, 1),
        (500_000_000, -500_000_000),
        (5, 16_777_213),
        (-7, 123_457),
        (98_765_432, 12_345_678),
    ];
    for &o in points.iter() {
        for &e in points.iter() {
            let dx = (o.0 - e.0).abs();
            let dy = (o.1 - e.1).abs();
            let expected = (1.14f32 * ((dx + dy) as f32)) as u32;
            assert_eq!(NavigationSystem::distance(&o, &e), expected, "o = {:?}, e = {:?}", o, e);
        }
    }
}

/// The same simplification computed with `f32` arithmetic.
fn simplify_in_f32(path: &Vec<(i32, i32)>) -> Vec<(i32, i32)> {
    let mut out: Vec<(i32, i32)> = Vec::new();
    let mut last_dx = 0.0f32;
    let mut last_slope = 0.0f32;
    let mut last_pos = path[0];
    for &(x, y) in path.iter() {
        let new_dx = (x - last_pos.0) as f32;
        let new_dy = (y - last_pos.1) as f32;
        let out_len = out.len();
        if last_dx == 0.0 {
            if new_dx != 0.0 {
                out.push((x, y));
                last_slope = new_dy / new_dx;
            } else if out_len > 0 {
                out[out_len - 1] = (x, y);
            }
        } else if new_dx == 0.0 {
            out.push((x, y));
        } else {
            let new_slope = new_dy / new_dx;
            if last_slope != new_slope {
                out.push((x, y));
            } else if out_len > 0 {
                out[out_len - 1] = (x, y);
            }
            last_slope = new_slope;
        }
        last_dx = new_dx;
        last_pos = (x, y);
    }
    out
}

#[test]
fn simplify_path_matches_f32_computation() {
    let mut rng = Lcg(3);
    for round in 0..400 {
        let len = 1 + (rng.next() % 12) as usize;
        let spread: i64 = match round % 4 {
            0 => 2,
            1 => 5,
            2 => 40_000_000,
            _ => 1_000,
        };
        let mut path: Vec<(i32, i32)> = Vec::new();
        let mut p = ((rng.next() % 100) as i32, (rng.next() % 100) as i32);
        for _ in 0..len {
            path.push(p);
            let dx = (rng.next() % (2 * spread as u64 + 1)) as i64 - spread;
            let dy = (rng.next() % (2 * spread as u64 + 1)) as i64 - spread;
            p = ((p.0 as i64 + dx) as i32, (p.1 as i64 + dy) as i32);
        }
        assert_eq!(NavigationSystem::simplify_path(path.clone()), simplify_in_f32(&path), "path = {:?}", path);
    }
}
