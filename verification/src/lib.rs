//! A small entity/component runtime: a world of entities carrying per-type
//! components, a singleton resource registry keyed by type, a path-keyed asset
//! cache that deduplicates loads, and a staged scheduler that drives
//! registered systems once per tick.

pub mod assets;
pub mod assoc;
pub mod editor;
pub mod gfx;
pub mod schedule;
pub mod transform;
pub mod world;

pub use assets::AssetLoadFailure;
pub use editor::EditorAction;
pub use editor::SceneName;
pub use editor::SelectedEntity;
pub use gfx::Framebuffer;
pub use gfx::Query;
pub use gfx::Shader;
pub use gfx::Texture;
pub use schedule::DriverState;
pub use schedule::Engine;
pub use schedule::Stage;
pub use schedule::SystemFailure;
pub use transform::Material;
pub use transform::Transform;
pub use world::Entity;
pub use world::World;
pub use world::WorldError;
