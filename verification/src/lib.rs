//! dustpan: the decision logic of a disk cleaner.

pub mod analyze;
pub mod apps;
pub mod breaks;
pub mod calendar;
pub mod clean;
pub mod cli;
pub mod ctxmenu;
pub mod encode;
pub mod fsutil;
pub mod glob;
pub mod inventory;
pub mod json;
pub mod menu;
pub mod number;
pub mod paths;
pub mod picker;
pub mod plan;
pub mod reg;
pub mod safety;
pub mod scan;
pub mod session;
pub mod settings;
pub mod sort;
pub mod sources;
pub mod steam;
pub mod targets;
pub mod term;
pub mod text;
pub mod ui;
pub mod uninstall;
pub mod version;
