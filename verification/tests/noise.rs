use voxel_engine::noise::{floor_div, floor_mod, lattice_hash, lattice_params_fit, LatticeHashes, PerlinNoiseParams};
use voxel_engine::world_gen::{gen_2d_range, ridged_grid_ok};

#[test]
fn test_floor_div() {
    assert_eq!(floor_div(9, 3), 3);
    assert_eq!(floor_div(10, 3), 3);
    assert_eq!(floor_div(-9, 3), -3);
    assert_eq!(floor_div(-10, 3), -4);
    assert_eq!(floor_div(0, 4), 0);
}

#[test]
fn test_floor_mod() {
    assert_eq!(floor_mod(9, 3), 0);
    assert_eq!(floor_mod(10, 3), 1);
    assert_eq!(floor_mod(-9, 3), 0);
    assert_eq!(floor_mod(-10, 3), 2);
    assert_eq!(floor_mod(0, 4), 0);
}

#[test]
fn floor_div_mod_recombine() {
    for a in -50..50 {
        for b in 1u32..7 {
            let q = floor_div(a, b);
            let r = floor_mod(a, b);
            assert_eq!(q * b as i32 + r, a);
            assert!(0 <= r && r < b as i32);
        }
    }
    assert_eq!(floor_div(i32::MIN, 1), i32::MIN);
    assert_eq!(floor_mod(i32::MIN, 7), 5);
}

#[test]
fn floor_div_with_wrapped_divisor() {
    // `b as i32` of a divisor above `i32::MAX` is negative
    assert_eq!(floor_div(7, u32::MAX - 1), -3);
    assert_eq!(floor_mod(7, u32::MAX - 1), 1);
    assert_eq!(floor_div(-7, u32::MAX), 7);
}

#[test]
fn lattice_hash_values() {
    let expected = {
        let mut h = 5u32.wrapping_add(3u32).wrapping_mul(0x85ebca6b);
        h = h.wrapping_add((-2i32) as u32).wrapping_mul(0xc2b2ae35);
        h ^= h >> 16;
        h.wrapping_mul(0x85ebca6b)
    };
    assert_eq!(lattice_hash(3, -2, 5), expected);
    assert_ne!(lattice_hash(3, -2, 5), lattice_hash(-2, 3, 5));
    assert_eq!(lattice_hash(0, 0, 0), 0);
}

fn params(seed: u32, chunk_x: i32, chunk_y: i32) -> PerlinNoiseParams {
    PerlinNoiseParams {
        seed,
        chunk_x,
        chunk_y,
        gradient_spacing: 16,
        chunk_width: 64,
    }
}

#[test]
fn lattice_borders_are_shared() {
    let a = LatticeHashes::new(params(42, 0, 0));
    let right = LatticeHashes::new(params(42, 1, 0));
    let up = LatticeHashes::new(params(42, 0, 1));
    let left = LatticeHashes::new(params(42, -1, 0));
    for j in 0..5 {
        // points 4 and 5 of a chunk are points 0 and 1 of the next one
        assert_eq!(a.cell(64, j * 16).h00, right.cell(0, j * 16).h00);
        assert_eq!(a.cell(j * 16, 64).h00, up.cell(j * 16, 0).h00);
        assert_eq!(left.cell(64, j * 16).h00, a.cell(0, j * 16).h00);
    }
}

#[test]
fn cell_corners_and_offsets() {
    let l = LatticeHashes::new(params(7, 2, -3));
    let c = l.cell(37, 5);
    assert_eq!(c.fx, 5);
    assert_eq!(c.fy, 5);
    // cell (2, 0) of chunk (2, -3): world lattice (2 + 8, 0 - 12)
    assert_eq!(c.h00, lattice_hash(10, -12, 7));
    assert_eq!(c.h10, lattice_hash(11, -12, 7));
    assert_eq!(c.h01, lattice_hash(10, -11, 7));
    assert_eq!(c.h11, lattice_hash(11, -11, 7));
}

#[test]
fn gen_2d_range_row_major() {
    assert_eq!(
        gen_2d_range(1, 3, 5, 8),
        vec![(1, 5), (1, 6), (1, 7), (2, 5), (2, 6), (2, 7)]
    );
    assert!(gen_2d_range(3, 1, 0, 4).is_empty());
    assert!(gen_2d_range(0, 4, 2, 2).is_empty());
}

#[test]
fn ridged_grid_condition() {
    assert!(ridged_grid_ok(64, 128));
    assert!(!ridged_grid_ok(100, 128));
    assert!(!ridged_grid_ok(0, 128));
}

#[test]
fn lattice_params_that_fit() {
    // 64 / 16 = 4 cells, 6 points, chunk offsets small
    assert!(lattice_params_fit(params(1, 0, 0)));
    assert!(lattice_params_fit(params(1, -3, 5)));
    // no cell width
    assert!(!lattice_params_fit(PerlinNoiseParams { gradient_spacing: 0, ..params(1, 0, 0) }));
    // the chunk offset leaves i32: 4 cells per chunk
    assert!(lattice_params_fit(params(1, i32::MAX / 4 - 2, 0)));
    assert!(!lattice_params_fit(params(1, i32::MAX / 4, 0)));
    assert!(!lattice_params_fit(params(1, 0, i32::MIN / 2)));
    // a negative chunk width asks for a negative number of points
    assert!(!lattice_params_fit(PerlinNoiseParams { chunk_width: u32::MAX - 63, ..params(1, 0, 0) }));
}
