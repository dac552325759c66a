//! A Pomodoro timer core: fixed-length work and break countdowns driven by an
//! injectable timer, a command loop over a line source and a text sink, and a
//! log of finished work sessions in a delimited record store.

pub mod text;
pub mod command;
pub mod timer;
pub mod error;
pub mod console;
pub mod record;
pub mod countdown;
pub mod session;
pub mod command_loop;
