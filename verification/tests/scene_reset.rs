use pbf_core::scene::scene_params;
use pbf_core::slide::SLIDE_MAX;

#[test]
fn scene_zero_parameters() {
    let p = scene_params(0).expect("scene 0 exists");
    assert_eq!((p.tank_x_mm, p.tank_y_mm, p.tank_z_mm), (800, 1500, 800));
    assert_eq!(
        (p.rel_water_x_pct, p.rel_water_y_pct, p.rel_water_z_pct),
        (20, 20, 20)
    );
    assert_eq!((p.offset_x_pct, p.offset_y_pct, p.offset_z_pct), (50, 100, 70));
    assert_eq!(p.slide_pos, SLIDE_MAX);
    assert_eq!(p.slide_vel_upms, 1_000_000);
    assert_eq!(p.slide_dir, -1);
}

#[test]
fn scene_one_parameters() {
    let p = scene_params(1).expect("scene 1 exists");
    assert_eq!((p.tank_x_mm, p.tank_y_mm, p.tank_z_mm), (2000, 1000, 500));
    assert_eq!(
        (p.rel_water_x_pct, p.rel_water_y_pct, p.rel_water_z_pct),
        (30, 30, 30)
    );
    assert_eq!((p.offset_x_pct, p.offset_y_pct, p.offset_z_pct), (0, 0, 50));
    assert_eq!(p.slide_pos, SLIDE_MAX);
    assert_eq!(p.slide_dir, -1);
}

#[test]
fn unknown_scene_is_refused() {
    assert!(scene_params(2).is_none());
    assert!(scene_params(-1).is_none());
}

#[test]
fn repeated_reset_loads_identical_parameters() {
    // Reloading the current scene is idempotent: the parameters depend on
    // the scene id alone.
    for id in 0..=1 {
        let a = scene_params(id).unwrap();
        let b = scene_params(id).unwrap();
        assert_eq!(a, b);
    }
}
