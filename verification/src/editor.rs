//! Editor-side pieces: the resources the panels share (the selected entity,
//! the scene on display), the keyboard-shortcut decisions, and the scene the
//! editor starts from.

use vstd::prelude::*;
use vstd::string::StringExecFns;
use crate::world::Entity;
use crate::world::World;

verus! {

/// The entity currently selected in the editor, if any.
#[derive(Clone, Copy, PartialEq, Eq, Structural, Debug)]
pub struct SelectedEntity(pub Option<Entity>);

/// The path of the scene on display, shown in the title area.
#[derive(Clone, PartialEq, Eq, Debug)]
pub struct SceneName(pub String);

/// What a keyboard shortcut asks the editor to do.
#[derive(Clone, Copy, PartialEq, Eq, Structural, Debug)]
pub enum EditorAction {
    SaveScene,
    OpenScene,
    Ignore,
}

/// The editor's shortcut decision: save on the platform modifier with 's',
/// open on the platform modifier with 'o', nothing otherwise. The caller
/// performs the chosen action (the dialogs and file work are its business).
pub fn shortcut_action(key: char, pressed: bool, modifier: bool) -> (r: EditorAction)
    ensures
        r == (if pressed && modifier && key == 's' {
            EditorAction::SaveScene
        } else if pressed && modifier && key == 'o' {
            EditorAction::OpenScene
        } else {
            EditorAction::Ignore
        }),
{
    if pressed && modifier && key == 's' {
        EditorAction::SaveScene
    } else if pressed && modifier && key == 'o' {
        EditorAction::OpenScene
    } else {
        EditorAction::Ignore
    }
}

/// A shortcut label: the platform's modifier prefix glued to the key name.
pub fn shortcut_label(prefix: &str, s: &str) -> (r: String)
    ensures
        r@ == prefix@ + s@,
{
    let p: String = prefix.to_owned();
    p.concat(s)
}

/// Builds the scene the editor starts from: a named camera carrying its
/// placement and lens, and a named mesh entity carrying its placement, under
/// the given component type keys. Returns the two fresh handles, camera
/// first; everything else in the world is untouched.
pub fn build_scene<V>(
    w: &mut World<V>,
    transform_key: u64,
    camera_key: u64,
    mesh_key: u64,
    cam_name: String,
    cam_transform: V,
    cam_camera: V,
    mesh_name: String,
    mesh_transform: V,
    mesh_value: V,
) -> (r: (Entity, Entity))
    requires
        old(w).wf(),
        transform_key != camera_key,
        transform_key != mesh_key,
    ensures
        final(w).wf(),
        r.0 != r.1,
        final(w).live(r.0) && final(w).live(r.1),
        !old(w).known(r.0) && !old(w).known(r.1),
        final(w).name_of(r.0) == Some(cam_name@),
        final(w).name_of(r.1) == Some(mesh_name@),
        final(w).component_at(transform_key, r.0) == Some(cam_transform),
        final(w).component_at(camera_key, r.0) == Some(cam_camera),
        final(w).component_at(transform_key, r.1) == Some(mesh_transform),
        final(w).component_at(mesh_key, r.1) == Some(mesh_value),
        forall|e2: Entity| old(w).live(e2) ==> final(w).live(e2),
        forall|k: u64| final(w).resource_at(k) == old(w).resource_at(k),
        forall|k: u64, p: Seq<char>| final(w).asset_at(k, p) == old(w).asset_at(k, p),
        final(w).pending_view() == old(w).pending_view(),
{
    let cam = w.spawn(Some(cam_name));
    let _ = w.insert(transform_key, cam, cam_transform);
    proof {
        assert(w.component_at(transform_key, cam) == Some(cam_transform));
    }
    let _ = w.insert(camera_key, cam, cam_camera);
    proof {
        assert(w.component_at(camera_key, cam) == Some(cam_camera));
        assert(w.component_at(transform_key, cam) == Some(cam_transform));
        assert(w.live(cam));
    }
    let mesh = w.spawn(Some(mesh_name));
    proof {
        assert(cam != mesh);
        assert(w.component_at(transform_key, cam) == Some(cam_transform));
        assert(w.component_at(camera_key, cam) == Some(cam_camera));
    }
    let _ = w.insert(transform_key, mesh, mesh_transform);
    proof {
        assert(w.component_at(transform_key, mesh) == Some(mesh_transform));
        assert(w.component_at(transform_key, cam) == Some(cam_transform));
        assert(w.component_at(camera_key, cam) == Some(cam_camera));
    }
    let _ = w.insert(mesh_key, mesh, mesh_value);
    proof {
        assert(w.component_at(mesh_key, mesh) == Some(mesh_value));
        assert(w.component_at(transform_key, mesh) == Some(mesh_transform));
        assert(w.component_at(transform_key, cam) == Some(cam_transform));
        assert(w.component_at(camera_key, cam) == Some(cam_camera));
    }
    (cam, mesh)
}

} // verus!
