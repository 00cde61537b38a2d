//! The options a node program starts with, as plain values.
//!
//! Command-line parsing itself (and its derive machinery) lives outside
//! this crate; these are the values it produces, with the usual defaults.

use vstd::prelude::*;

verus! {

/// Whether the node runs the datagram demo as client or as server.
#[derive(Clone, Copy, Debug, PartialEq, Eq, Structural)]
pub enum Mode {
    Client,
    Server,
}

/// The start-up options: the configuration file, the logging
/// configuration file, and the mode.
#[derive(Debug)]
pub struct Args {
    pub config: String,
    pub log_config: String,
    pub mode: Mode,
}

impl Args {
    /// Options from explicit values.
    pub fn new(config: String, log_config: String, mode: Mode) -> (r: Self)
        ensures
            r.config@ == config@,
            r.log_config@ == log_config@,
            r.mode == mode,
    {
        Args { config, log_config, mode }
    }
}

impl Clone for Args {
    fn clone(&self) -> (r: Self)
        ensures
            r.config@ == self.config@,
            r.log_config@ == self.log_config@,
            r.mode == self.mode,
    {
        Args {
            config: self.config.clone(),
            log_config: self.log_config.clone(),
            mode: self.mode,
        }
    }
}

impl Default for Args {
    /// The default options: `config.toml`, `log_config.yml`, server mode.
    fn default() -> (r: Self)
        ensures
            r.config@ == "config.toml"@,
            r.log_config@ == "log_config.yml"@,
            r.mode == Mode::Server,
    {
        Args {
            config: "config.toml".to_owned(),
            log_config: "log_config.yml".to_owned(),
            mode: Mode::Server,
        }
    }
}

} // verus!
