//! A daily poweroff scheduler: configuration file format, calendar arithmetic,
//! warning schedule and the decisions of the long-running daemon.
pub mod text;
pub mod calendar;
pub mod dateset;
pub mod config;
pub mod configfile;
pub mod messages;
pub mod schedule;
pub mod daemon;
pub mod commands;
