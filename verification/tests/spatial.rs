use glam::{EulerRot, Mat4, Quat, Vec3};
use phosphor::editor::{SceneName, SelectedEntity};
use phosphor::gfx::{Framebuffer, Query, Shader, Texture};
use phosphor::transform::{Material, Transform};
use phosphor::world::World;

#[test]
fn transform_new_is_the_identity_placement() {
    let t = Transform::new();
    assert_eq!(t.position, Vec3::ZERO);
    assert_eq!(t.rotation, Quat::IDENTITY);
    assert_eq!(t.scale, Vec3::ONE);
}

#[test]
fn transform_builders_set_one_field_each() {
    let p = Vec3::new(1.0, 2.0, 3.0);
    let s = Vec3::new(2.0, 2.0, 2.0);
    let q = Quat::from_rotation_y(0.5);
    let t = Transform::new().pos(p).rot_quat(q).scale(s);
    assert_eq!(t.position, p);
    assert_eq!(t.rotation, q);
    assert_eq!(t.scale, s);
}

#[test]
fn rot_euler_reads_xyz_angles() {
    let angles = Vec3::new(0.1, 0.2, 0.3);
    let t = Transform::new().rot_euler(angles);
    let expected = Quat::from_euler(EulerRot::XYZ, 0.1, 0.2, 0.3);
    assert_eq!(t.rotation, expected);
    assert_eq!(t.position, Vec3::ZERO);
    assert_eq!(t.scale, Vec3::ONE);
}

#[test]
fn as_mat4_scales_rotates_translates() {
    let p = Vec3::new(4.0, 5.0, 6.0);
    let q = Quat::from_rotation_z(1.0);
    let s = Vec3::new(1.0, 2.0, 3.0);
    let t = Transform::new().pos(p).rot_quat(q).scale(s);
    let expected = Mat4::from_scale_rotation_translation(s, q, p);
    assert_eq!(t.as_mat4(), expected);
    // the matrix is not the identity that a do-nothing conversion would give
    assert_ne!(t.as_mat4(), Mat4::IDENTITY);
}

#[test]
fn materials_carry_texture_or_color() {
    let tex = Texture { id: 4, width: 64, height: 64, iformat: 0, format: 0, typ: 0 };
    let m1 = Material::Textured(tex);
    let m2 = Material::Color(Vec3::splat(0.75));
    match m1 {
        Material::Textured(t) => assert_eq!(t.id, 4),
        Material::Color(_) => panic!("expected a textured material"),
    }
    match m2 {
        Material::Color(c) => assert_eq!(c, Vec3::splat(0.75)),
        Material::Textured(_) => panic!("expected a colored material"),
    }
}

#[test]
fn gfx_handles_are_plain_data() {
    let sh = Shader(3);
    assert_eq!(sh.0, 3);
    let fb = Framebuffer::default_target();
    assert_eq!((fb.fb, fb.rb), (0, 0));
    let q = Query(8);
    assert_eq!(q.0, 8);
}

#[test]
fn editor_resources_round_trip_through_the_registry() {
    let mut w: World<SelectedEntity> = World::new();
    let e = w.spawn(Some("picked".to_string()));
    w.add_resource(1, SelectedEntity(Some(e)));
    assert_eq!(w.get_resource(1), Ok(&SelectedEntity(Some(e))));
    let name = SceneName("test.scene".to_string());
    assert_eq!(name, SceneName("test.scene".to_string()));
    assert_eq!(name.0, "test.scene");
}
