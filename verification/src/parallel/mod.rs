//! Gates, flows with gated alternatives, and their resolution.

pub mod canon;
pub mod flow;
pub mod gate;
pub mod normalize;
pub mod pathway;
pub mod scope;
pub mod walk;
