//! Daily application-activity tracking: the log of a day (time per
//! application, window title and hour), how a poll of the active window is
//! recorded in it, how applications are put into categories, and the
//! Markdown report of a day; with the small rules of the program around it
//! (window identity, request routing, command line).

pub mod text;
pub mod duration;
pub mod category;
pub mod keymap;
pub mod log;
pub mod rank;
pub mod report;
pub mod window;
pub mod routes;
