use phosphor::editor::{build_scene, shortcut_action, shortcut_label, EditorAction};
use phosphor::gfx::Shader;
use phosphor::transform::{shader_for, Material};
use phosphor::world::World;

const TRANSFORM: u64 = 1;
const CAMERA: u64 = 2;
const MESH: u64 = 3;

#[test]
fn shortcut_action_decides_save_open_or_nothing() {
    assert_eq!(shortcut_action('s', true, true), EditorAction::SaveScene);
    assert_eq!(shortcut_action('o', true, true), EditorAction::OpenScene);
    // without the platform modifier, nothing happens
    assert_eq!(shortcut_action('s', true, false), EditorAction::Ignore);
    // a key release triggers nothing
    assert_eq!(shortcut_action('o', false, true), EditorAction::Ignore);
    // other keys trigger nothing
    assert_eq!(shortcut_action('x', true, true), EditorAction::Ignore);
}

#[test]
fn shortcut_label_glues_prefix_and_key() {
    assert_eq!(shortcut_label("Ctrl ", "S"), "Ctrl S");
    assert_eq!(shortcut_label("", "O"), "O");
}

#[test]
fn shader_for_selects_by_material() {
    let tex_sh = Shader(1);
    let col_sh = Shader(2);
    let textured = Material::Textured(phosphor::gfx::Texture {
        id: 9,
        width: 0,
        height: 0,
        iformat: 0,
        format: 0,
        typ: 0,
    });
    let colored = Material::Color(glam::Vec3::splat(0.5));
    assert_eq!(shader_for(tex_sh, col_sh, Some(&textured)), tex_sh);
    assert_eq!(shader_for(tex_sh, col_sh, Some(&colored)), col_sh);
    assert_eq!(shader_for(tex_sh, col_sh, None), col_sh);
}

#[test]
fn build_scene_spawns_camera_and_mesh() {
    let mut w: World<u64> = World::new();
    let (cam, mesh) = build_scene(
        &mut w,
        TRANSFORM,
        CAMERA,
        MESH,
        "cam".to_string(),
        10,
        11,
        "teapot".to_string(),
        20,
        21,
    );
    assert_ne!(cam, mesh);
    assert!(w.is_live(cam) && w.is_live(mesh));
    assert_eq!(w.name(cam).map(|s| s.as_str()), Some("cam"));
    assert_eq!(w.name(mesh).map(|s| s.as_str()), Some("teapot"));
    assert_eq!(w.get(TRANSFORM, cam), Some(&10));
    assert_eq!(w.get(CAMERA, cam), Some(&11));
    assert_eq!(w.get(TRANSFORM, mesh), Some(&20));
    assert_eq!(w.get(MESH, mesh), Some(&21));
    // the camera carries no mesh and the mesh entity no camera
    assert_eq!(w.get(MESH, cam), None);
    assert_eq!(w.get(CAMERA, mesh), None);
}

#[test]
fn despawn_clears_the_display_name() {
    let mut w: World<u64> = World::new();
    let e = w.spawn(Some("ghost".to_string()));
    assert!(w.name(e).is_some());
    w.despawn(e);
    assert_eq!(w.name(e), None);
}
