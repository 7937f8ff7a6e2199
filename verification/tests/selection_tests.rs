use jixel::bands::fill_selection_bands;
use jixel::scope::{SearchScope, Speed};
use jixel::strategy::NO_CHILD_BLOCK;
use jixel::super_block::sub_grid;

#[test]
fn selection_band_storage_is_reused_for_smaller_jobs() {
    let mut bands = Vec::new();
    fill_selection_bands(&mut bands, 32, 12);
    assert_eq!(
        bands,
        [
            (0, 4),
            (4, 8),
            (8, 12),
            (12, 16),
            (16, 20),
            (20, 24),
            (24, 28),
            (28, 32),
        ]
    );
    let capacity = bands.capacity();
    fill_selection_bands(&mut bands, 4, 12);
    assert_eq!(bands, [(0, 4)]);
    assert_eq!(bands.capacity(), capacity);
}

/// AFV (with the rest of sub-8) is a Slow-only feature: the sub-8 pass
/// runs only under `SearchScope::Full`, and only Slow maps to it.
#[test]
fn sub8_and_afv_are_slow_only() {
    assert_eq!(SearchScope::for_speed(Speed::Fastest), SearchScope::Squares);
    assert_eq!(SearchScope::for_speed(Speed::Fast), SearchScope::Squares);
    assert_eq!(SearchScope::for_speed(Speed::Slow), SearchScope::Full);
    // The sub-8 refinement is gated on `scope.rectangles()`.
    assert!(!SearchScope::Squares.rectangles());
    assert!(SearchScope::Full.rectangles());
}

/// A 32x16 pair's child layouts are looked up per half, so the right half's
/// grid must be re-based to its own origin (and the same for a 16x32 pair's
/// bottom half).
#[test]
fn sub_grid_rebases_rectangle_halves() {
    let mut grid = [NO_CHILD_BLOCK; 16];
    for (i, cell) in grid.iter_mut().enumerate() {
        *cell = i as u8; // unique marker per cell
    }
    let left = sub_grid(&grid, 0, 0, 2, 4);
    let right = sub_grid(&grid, 2, 0, 2, 4);
    for iy in 0..4 {
        assert_eq!(left[iy * 4], (iy * 4) as u8);
        assert_eq!(left[iy * 4 + 1], (iy * 4 + 1) as u8);
        assert_eq!(right[iy * 4], (iy * 4 + 2) as u8);
        assert_eq!(right[iy * 4 + 1], (iy * 4 + 3) as u8);
        assert_eq!(left[iy * 4 + 2], NO_CHILD_BLOCK);
        assert_eq!(right[iy * 4 + 3], NO_CHILD_BLOCK);
    }
    let top = sub_grid(&grid, 0, 0, 4, 2);
    let bottom = sub_grid(&grid, 0, 2, 4, 2);
    for ix in 0..4 {
        assert_eq!(top[ix], ix as u8);
        assert_eq!(top[4 + ix], (4 + ix) as u8);
        assert_eq!(bottom[ix], (8 + ix) as u8);
        assert_eq!(bottom[4 + ix], (12 + ix) as u8);
        assert_eq!(bottom[8 + ix], NO_CHILD_BLOCK);
    }
}
