//! The core of a tiling window manager: layouts that place clients on a screen, workspaces
//! that hold clients in order, and a manager that turns window-system events and key presses
//! into changes of its model and commands for the window system.

pub mod geometry;
pub mod hooks;
pub mod laws;
pub mod layout;
pub mod manager;
pub mod scratchpad;
pub mod workspace;
