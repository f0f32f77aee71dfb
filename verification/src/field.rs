//! Gameplay related types, functions and utilities

pub mod items;
pub mod movement;
pub mod moving_field;
pub mod preparation;
pub mod row;
pub mod static_field;
pub mod tick;
pub mod unsettle;

pub use items::{CapsuleElement, RowOfFour, Update, Virus};
pub use movement::{ControlledCapsule, Movement};
pub use moving_field::{MovingField, MovingRowIndex};
pub use preparation::prepare_field;
pub use row::Row;
pub use static_field::{defeated, StaticField, TileContents};
pub use tick::{eliminate_elements, settle_elements, Eliminated, Settled};
pub use unsettle::unsettle_elements;
