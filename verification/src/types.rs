//! Plain records that cross the boundary of a component.

pub mod messages;
