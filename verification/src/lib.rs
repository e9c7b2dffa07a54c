//! The verified core of Oracle: the rules behind project discovery, git status, health
//! checks, log buffering, port handling, favicon lookup and the configuration model.
use vstd::prelude::*;

pub mod atlas;
pub mod autostart;
pub mod changelog;
pub mod config;
pub mod discovery;
pub mod error;
pub mod favicon;
pub mod input;
pub mod logs;
pub mod model;
pub mod monitor;
pub mod probe;
pub mod remote;
pub mod runner;
pub mod screens;
pub mod sorting;
pub mod text;
pub mod ui;
pub mod vcs;
pub mod views;

verus! {

/// The version of Oracle this library belongs to.
pub const VERSION: &'static str = "0.2.1";

} // verus!
