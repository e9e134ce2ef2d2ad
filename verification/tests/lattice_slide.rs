use pbf_core::lattice::lattice_sites;
use pbf_core::slide::{advance_slide, SLIDE_MAX, SLIDE_MIN};

#[test]
fn lattice_enumerates_row_major() {
    let sites = lattice_sites(2, 3, 2);
    assert_eq!(sites.len(), 12);
    for (p, s) in sites.iter().enumerate() {
        assert!(s.ix < 2 && s.iy < 3 && s.iz < 2);
        assert_eq!((s.ix * 3 + s.iy) * 2 + s.iz, p);
        assert_eq!(s.staggered, s.iy % 2 == 1);
    }
    assert_eq!((sites[0].ix, sites[0].iy, sites[0].iz), (0, 0, 0));
    assert_eq!((sites[1].ix, sites[1].iy, sites[1].iz), (0, 0, 1));
    assert_eq!((sites[2].ix, sites[2].iy, sites[2].iz), (0, 1, 0));
    assert_eq!((sites[11].ix, sites[11].iy, sites[11].iz), (1, 2, 1));
}

#[test]
fn lattice_empty_axis_gives_no_sites() {
    assert!(lattice_sites(0, 5, 5).is_empty());
    assert!(lattice_sites(5, 0, 5).is_empty());
}

#[test]
fn scene0_lattice_count() {
    // The default tank with a fifth of each axis filled: lattice spacings
    // 2 * radius horizontally and sqrt(3)/2 of that vertically give a
    // 5 x 11 x 5 block of 275 particles.
    let radius = 0.015f32;
    let dx = 2.0 * radius;
    let dy = 3.0f32.sqrt() / 2.0 * dx;
    let dz = dx;
    let tank = (0.8f32, 1.5f32, 0.8f32);
    let rel_water = (0.2f32, 0.2f32, 0.2f32);
    let num_x = (rel_water.0 * tank.0 / dx).floor() as usize;
    let num_y = (rel_water.1 * tank.1 / dy).floor() as usize;
    let num_z = (rel_water.2 * tank.2 / dz).floor() as usize;
    assert_eq!((num_x, num_y, num_z), (5, 11, 5));
    let sites = lattice_sites(num_x, num_y, num_z);
    assert_eq!(sites.len(), 275);
}

#[test]
fn slide_moves_without_reflection() {
    assert_eq!(advance_slide(700_000, 1, 5_000), (705_000, 1));
    assert_eq!(advance_slide(700_000, -1, 5_000), (695_000, -1));
    assert_eq!(advance_slide(995_000, 1, 5_000), (1_000_000, 1));
    assert_eq!(advance_slide(505_000, -1, 5_000), (500_000, -1));
}

#[test]
fn slide_reflects_at_both_ends() {
    // Overshooting the full half-width turns the wall around.
    assert_eq!(advance_slide(999_000, 1, 5_000), (996_000, -1));
    // Undershooting half of it turns it back.
    assert_eq!(advance_slide(501_000, -1, 5_000), (504_000, 1));
    assert_eq!(advance_slide(SLIDE_MAX, 1, 1), (SLIDE_MAX - 1, -1));
    assert_eq!(advance_slide(SLIDE_MIN, -1, 1), (SLIDE_MIN + 1, 1));
}

#[test]
fn slide_stays_on_track_and_cycles() {
    // The reset state of the slide scene driven with the canonical time
    // step: the wall must stay on its track, turn around repeatedly, and
    // return to its start after one full cycle of 200 steps.
    let step = 5_000i64;
    let mut pos = 1_000_000i64;
    let mut dir = -1i64;
    let mut flips = 0;
    for n in 1..=1_000 {
        let last_dir = dir;
        let r = advance_slide(pos, dir, step);
        pos = r.0;
        dir = r.1;
        assert!(SLIDE_MIN <= pos && pos <= SLIDE_MAX);
        if dir != last_dir {
            flips += 1;
        }
        if n % 200 == 0 {
            assert_eq!(pos, 1_000_000);
        }
    }
    assert!(flips >= 2);
}
