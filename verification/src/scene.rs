use crate::slide::SLIDE_MAX;
use vstd::prelude::*;

verus! {

/// The parameters a scene reset loads, held as exact integers: tank extents
/// in millimeters, fill fractions and offsets in percent, and the
/// slide-wall state in millionths of the tank half-width (its speed in
/// millionths per second). The host divides them out into its
/// floating-point state.
#[derive(Clone, Copy, Debug, PartialEq, Eq, Structural)]
pub struct SceneParams {
    pub tank_x_mm: u32,
    pub tank_y_mm: u32,
    pub tank_z_mm: u32,
    pub rel_water_x_pct: u32,
    pub rel_water_y_pct: u32,
    pub rel_water_z_pct: u32,
    pub offset_x_pct: u32,
    pub offset_y_pct: u32,
    pub offset_z_pct: u32,
    pub slide_pos: i64,
    pub slide_vel_upms: i64,
    pub slide_dir: i64,
}

/// The still-water scene: a tall tank with a small block of water dropped
/// off-center.
pub open spec fn scene_still() -> SceneParams {
    SceneParams {
        tank_x_mm: 800,
        tank_y_mm: 1500,
        tank_z_mm: 800,
        rel_water_x_pct: 20,
        rel_water_y_pct: 20,
        rel_water_z_pct: 20,
        offset_x_pct: 50,
        offset_y_pct: 100,
        offset_z_pct: 70,
        slide_pos: SLIDE_MAX as i64,
        slide_vel_upms: 1000000,
        slide_dir: -1i64,
    }
}

/// The slide scene: a long flat tank whose right wall sweeps back and
/// forth along X.
pub open spec fn scene_slide() -> SceneParams {
    SceneParams {
        tank_x_mm: 2000,
        tank_y_mm: 1000,
        tank_z_mm: 500,
        rel_water_x_pct: 30,
        rel_water_y_pct: 30,
        rel_water_z_pct: 30,
        offset_x_pct: 0,
        offset_y_pct: 0,
        offset_z_pct: 50,
        slide_pos: SLIDE_MAX as i64,
        slide_vel_upms: 1000000,
        slide_dir: -1i64,
    }
}

/// The parameters of the scene with the given id, or nothing for an unknown
/// id. The result depends on the id alone, so a repeated reset reloads the
/// same scene.
pub fn scene_params(scene_id: i32) -> (r: Option<SceneParams>)
    ensures
        scene_id == 0 ==> r == Some(scene_still()),
        scene_id == 1 ==> r == Some(scene_slide()),
        r is None <==> scene_id != 0 && scene_id != 1,
{
    if scene_id == 0 {
        Some(
            SceneParams {
                tank_x_mm: 800,
                tank_y_mm: 1500,
                tank_z_mm: 800,
                rel_water_x_pct: 20,
                rel_water_y_pct: 20,
                rel_water_z_pct: 20,
                offset_x_pct: 50,
                offset_y_pct: 100,
                offset_z_pct: 70,
                slide_pos: SLIDE_MAX,
                slide_vel_upms: 1000000,
                slide_dir: -1,
            },
        )
    } else if scene_id == 1 {
        Some(
            SceneParams {
                tank_x_mm: 2000,
                tank_y_mm: 1000,
                tank_z_mm: 500,
                rel_water_x_pct: 30,
                rel_water_y_pct: 30,
                rel_water_z_pct: 30,
                offset_x_pct: 0,
                offset_y_pct: 0,
                offset_z_pct: 50,
                slide_pos: SLIDE_MAX,
                slide_vel_upms: 1000000,
                slide_dir: -1,
            },
        )
    } else {
        None
    }
}

} // verus!
