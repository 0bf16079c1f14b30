//! A terminal music browser core: directory navigation, playlist ordering,
//! and the playback state machine, with verified contracts.

pub mod entry;
pub mod nav;
pub mod ordering;
pub mod playback;
pub mod session;
