//! Core logic of a virtual audio cable: the routing matrix, the registry of
//! virtual devices, device identifiers, preset file naming and the small text
//! formatting these need, each with a contract proved by Verus.

pub mod audio;
pub mod commands;
pub mod config;
pub mod devices;
pub mod routing;
pub mod text;
