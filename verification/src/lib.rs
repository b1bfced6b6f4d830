//! Disk-usage analysis: the size tree built from a filesystem walk, the
//! view model over it, and the state machines of the terminal and desktop
//! front-ends.

pub mod cli;
pub mod events;
pub mod format;
pub mod gui;
pub mod layout;
pub mod order;
pub mod text;
pub mod tree;
pub mod view;
pub mod walker;
