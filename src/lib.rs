//! Picks the monitor with the widest native mode out of a display-query
//! report, and builds the arguments that switch to it and turn the others off.
pub mod monitor;
pub mod text;
