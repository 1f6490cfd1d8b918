pub mod children;
pub mod local_to_parent;
pub mod local_to_world;
pub mod matrix;
pub mod non_uniform_scale;
pub mod parent;
pub mod rotation;
pub mod scale;
pub mod translation;

pub use children::Children;
pub use local_to_parent::LocalToParent;
pub use local_to_world::LocalToWorld;
pub use matrix::Mat4;
pub use non_uniform_scale::NonUniformScale;
pub use parent::{Parent, PreviousParent};
pub use rotation::Rotation;
pub use scale::Scale;
pub use translation::Translation;
