//! An entity-component-system runtime with a staged scheduler.
//!
//! The component store, the resource registry and the scheduler are generic
//! over what they hold: the caller picks one payload type for components,
//! one for resources and one for systems. Every operation is stated over a
//! mathematical view of the world, and the laws that tie the operations
//! together are proved in `laws`.

pub mod type_id;
pub mod collections;
pub mod model;
pub mod ecs;
pub mod laws;
pub mod assets;
pub mod scene;
pub mod engine;
pub mod scene3d;
pub mod editor;
pub mod audio;
