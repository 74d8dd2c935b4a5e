//! Saved key remappings for an X11 keyboard: the rules file format, the
//! keymap listing, and the decisions of applying, restoring and
//! reconciling mappings.

pub mod text;
pub mod hexcode;
pub mod order;
pub mod rules;
pub mod keymap;
pub mod desktop;
pub mod session;
pub mod live;
pub mod watch;
pub mod compose;
pub mod labels;
