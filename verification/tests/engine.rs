use pixelator::{
    begin_life, map_onto_cells, neighbors, neighbors_coords, step, CellState, Grid, LifeError,
    Mode, Pixel, Raster,
};
use pixelator::conway::{seed_cells, seed_random, simulate};
use pixelator::Universe;

fn dead_grid(w: usize, h: usize) -> Grid {
    Grid::new_dead(w, h)
}

fn opaque(r: u8, g: u8, b: u8) -> Pixel {
    Pixel { r, g, b, a: 255 }
}

#[test]
fn neighbor_count_center_of_full_block() {
    let mut g = dead_grid(3, 3);
    for y in 0..3 {
        for x in 0..3 {
            g.set(x, y, CellState::Alive);
        }
    }
    assert_eq!(neighbors((1, 1), &g), 8);
}

#[test]
fn neighbor_count_excludes_center_cell() {
    let mut g = dead_grid(3, 3);
    g.set(1, 1, CellState::Alive);
    assert_eq!(neighbors((1, 1), &g), 0);
}

#[test]
fn neighbor_count_clips_at_corners() {
    let mut g = dead_grid(2, 2);
    for y in 0..2 {
        for x in 0..2 {
            g.set(x, y, CellState::Alive);
        }
    }
    assert_eq!(neighbors((0, 0), &g), 3);
    assert_eq!(neighbors((1, 1), &g), 3);
}

#[test]
fn neighbor_count_boundary_is_not_wraparound() {
    // A live column on the far right edge must not count as neighbours
    // of the left edge.
    let mut g = dead_grid(4, 1);
    g.set(3, 0, CellState::Alive);
    assert_eq!(neighbors((0, 0), &g), 0);
}

#[test]
fn neighbor_coords_row_major_order() {
    let mut g = dead_grid(3, 3);
    g.set(0, 0, CellState::Alive);
    g.set(2, 0, CellState::Alive);
    g.set(1, 2, CellState::Alive);
    let coords = neighbors_coords((1, 1), &g);
    assert_eq!(coords, vec![(0, 0), (2, 0), (1, 2)]);
}

#[test]
fn neighbor_coords_exclude_center_and_edges() {
    let mut g = dead_grid(2, 2);
    g.set(0, 0, CellState::Alive);
    g.set(1, 1, CellState::Alive);
    let coords = neighbors_coords((0, 0), &g);
    assert_eq!(coords, vec![(1, 1)]);
}

#[test]
fn lone_center_cell_dies_and_grid_empties() {
    // A 3x3 all-dead grid except the centre: under-population kills the
    // centre and no neighbour has enough company to be born.
    let mut g = dead_grid(3, 3);
    g.set(1, 1, CellState::Alive);
    let img = Raster::filled(3, 3, opaque(10, 20, 30));
    let next = step(g, &img, 32);
    for y in 0..3 {
        for x in 0..3 {
            assert_eq!(next.cells.get(x, y), CellState::Dead);
        }
    }
}

#[test]
fn top_row_births_center_with_composited_colour() {
    // Top row alive: the middle cell of the second row sees exactly 3
    // live neighbours and is born with their colours composited in
    // row-major order; fully opaque sources leave the last one on top.
    let mut g = dead_grid(3, 3);
    g.set(0, 0, CellState::Alive);
    g.set(1, 0, CellState::Alive);
    g.set(2, 0, CellState::Alive);
    let mut img = Raster::filled(3, 3, opaque(0, 0, 0));
    img.set(0, 0, opaque(200, 0, 0));
    img.set(1, 0, opaque(0, 200, 0));
    img.set(2, 0, opaque(0, 0, 200));
    let next = step(g, &img, 16);
    assert_eq!(next.cells.get(1, 1), CellState::Alive);
    // the three opaque neighbour colours composite to the last in scan
    // order, forced fully opaque
    assert_eq!(next.image.get(1, 1), opaque(0, 0, 200));
    // the top middle cell survives on two neighbours and keeps its pixel
    assert_eq!(next.cells.get(1, 0), CellState::Alive);
    assert_eq!(next.image.get(1, 0), opaque(0, 200, 0));
    // a corner dies of under-population and its alpha decays
    assert_eq!(next.cells.get(0, 0), CellState::Dead);
    assert_eq!(next.image.get(0, 0), Pixel { r: 200, g: 0, b: 0, a: 239 });
}

#[test]
fn step_is_deterministic() {
    let build = || {
        let mut g = dead_grid(3, 3);
        g.set(0, 0, CellState::Alive);
        g.set(1, 0, CellState::Alive);
        g.set(2, 0, CellState::Alive);
        let mut img = Raster::filled(3, 3, Pixel { r: 9, g: 8, b: 7, a: 200 });
        img.set(1, 0, Pixel { r: 1, g: 2, b: 3, a: 100 });
        (g, img)
    };
    let (g1, i1) = build();
    let (g2, i2) = build();
    let u1 = step(g1, &i1, 32);
    let u2 = step(g2, &i2, 32);
    for y in 0..3 {
        for x in 0..3 {
            assert_eq!(u1.cells.get(x, y), u2.cells.get(x, y));
            assert_eq!(u1.image.get(x, y), u2.image.get(x, y));
        }
    }
}

#[test]
fn dead_grid_decays_uniformly() {
    // A fully dead grid stays dead and every pixel's alpha drops by
    // exactly min(decay, alpha).
    let g = dead_grid(4, 2);
    let mut img = Raster::filled(4, 2, Pixel { r: 5, g: 6, b: 7, a: 100 });
    img.set(0, 0, Pixel { r: 5, g: 6, b: 7, a: 10 });
    let next = step(g, &img, 32);
    for y in 0..2 {
        for x in 0..4 {
            assert_eq!(next.cells.get(x, y), CellState::Dead);
        }
    }
    assert_eq!(next.image.get(0, 0), Pixel { r: 5, g: 6, b: 7, a: 0 });
    assert_eq!(next.image.get(1, 0), Pixel { r: 5, g: 6, b: 7, a: 68 });
}

#[test]
fn alpha_decays_to_exact_zero_never_wraps() {
    let g = dead_grid(1, 1);
    let img = Raster::filled(1, 1, Pixel { r: 1, g: 1, b: 1, a: 31 });
    let next = step(g, &img, 32);
    assert_eq!(next.image.get(0, 0).a, 0);
}

#[test]
fn simulate_emits_five_plus_generations_frames() {
    let g = dead_grid(2, 2);
    let img = Raster::filled(2, 2, opaque(1, 2, 3));
    let universe = Universe { cells: g, image: img };
    let slides = simulate(universe, 7, 32);
    assert_eq!(slides.len(), 12);
}

#[test]
fn begin_life_frame_count_and_leading_duplicates() {
    let img = Raster::filled(3, 3, opaque(50, 60, 70));
    let slides = begin_life(img, 4, 16, &Mode::Dark).unwrap();
    assert_eq!(slides.len(), 9);
    for i in 0..5 {
        for y in 0..3 {
            for x in 0..3 {
                assert_eq!(slides[i].get(x, y), opaque(50, 60, 70));
            }
        }
    }
}

#[test]
fn begin_life_rejects_zero_area_raster() {
    let img = Raster::from_pixels(0, 5, Vec::new()).unwrap();
    let err = begin_life(img, 3, 16, &Mode::Random).unwrap_err();
    assert_eq!(err, LifeError::EmptyRaster);
}

#[test]
fn map_onto_cells_dark_seeds_dark_bucket() {
    // Known two-class image: dark pixels seed life in Dark mode, light
    // pixels in Light mode, reproducing the exact expected mask.
    let mut img = Raster::filled(2, 2, opaque(0, 0, 0));
    img.set(1, 0, opaque(255, 255, 255));
    img.set(0, 1, opaque(255, 255, 255));
    let dark = map_onto_cells(&img, &Mode::Dark).unwrap();
    assert_eq!(dark.get(0, 0), CellState::Alive);
    assert_eq!(dark.get(1, 0), CellState::Dead);
    assert_eq!(dark.get(0, 1), CellState::Dead);
    assert_eq!(dark.get(1, 1), CellState::Alive);
    let light = map_onto_cells(&img, &Mode::Light).unwrap();
    assert_eq!(light.get(0, 0), CellState::Dead);
    assert_eq!(light.get(1, 0), CellState::Alive);
    assert_eq!(light.get(0, 1), CellState::Alive);
    assert_eq!(light.get(1, 1), CellState::Dead);
}

#[test]
fn map_onto_cells_threshold_sits_above_127() {
    let mut img = Raster::filled(2, 1, opaque(127, 127, 127));
    img.set(1, 0, opaque(128, 128, 128));
    let dark = map_onto_cells(&img, &Mode::Dark).unwrap();
    assert_eq!(dark.get(0, 0), CellState::Alive);
    assert_eq!(dark.get(1, 0), CellState::Dead);
}

#[test]
fn map_onto_cells_refuses_random_mode() {
    let img = Raster::filled(2, 2, opaque(0, 0, 0));
    let err = map_onto_cells(&img, &Mode::Random).unwrap_err();
    assert_eq!(err, LifeError::InvalidMode);
}

#[test]
fn seed_cells_marks_exactly_the_draws() {
    let draws = vec![(0usize, 0usize), (2, 1), (0, 0)];
    let g = seed_cells(3, 2, &draws);
    assert_eq!(g.get(0, 0), CellState::Alive);
    assert_eq!(g.get(2, 1), CellState::Alive);
    assert_eq!(g.get(1, 0), CellState::Dead);
    assert_eq!(g.get(0, 1), CellState::Dead);
    assert_eq!(g.get(1, 1), CellState::Dead);
    assert_eq!(g.get(2, 0), CellState::Dead);
}

#[test]
fn random_seeding_collides_below_full_density() {
    // 100 draws with replacement on a 10x10 grid: collisions make the
    // realized live count fall short of 100 with overwhelming
    // probability, and at least one cell is alive.
    let g = seed_random(10, 10);
    let mut alive = 0usize;
    for y in 0..10 {
        for x in 0..10 {
            if g.get(x, y) == CellState::Alive {
                alive += 1;
            }
        }
    }
    assert!(alive >= 1);
    assert!(alive < 100);
}

#[test]
fn random_seeding_on_single_cell_hits_it() {
    let g = seed_random(1, 1);
    assert_eq!(g.get(0, 0), CellState::Alive);
}
