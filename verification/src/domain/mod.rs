//! The command side of the story model: commands, the events they yield and
//! the aggregate that decides between them.
pub mod commands;
pub mod events;
pub mod aggregate;
pub mod laws;
