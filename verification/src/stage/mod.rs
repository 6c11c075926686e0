//! Stage files: the header, the record tables and the events they refer to.

pub mod actor;
pub mod object;
pub mod stage;

pub use actor::Actor;
pub use object::Object;
pub use stage::{Settings, Stage, Unk28, Unk2C};
