//! A vertical tab bar for X11 terminal sessions: the window model, tab groups,
//! persistence snapshots, EWMH property parsing and sidebar geometry, with
//! their behaviour stated and proved.

pub mod bridge;
pub mod config;
pub mod draw;
pub mod drops;
pub mod events;
pub mod filter;
pub mod geometry;
pub mod icon;
pub mod laws;
pub mod moves;
pub mod panel;
pub mod row;
pub mod search;
pub mod sidebar;
pub mod snapshot;
pub mod state;
pub mod text;
pub mod x11;
