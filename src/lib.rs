pub mod commands;
pub mod content;
pub mod display;
pub mod matchers;
pub mod options;
pub mod program;
pub mod replay;
pub mod schedule;
pub mod screen;
pub mod text;
pub mod util;
