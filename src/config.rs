//! The server's run modes.
use vstd::prelude::*;

verus! {

/// How the server process runs.
#[derive(Clone, Copy, Debug, PartialEq, Eq, Structural)]
pub struct RunModes {
    /// Detach from the terminal and log to a file.
    pub daemonize: bool,
    /// Run the interactive console.
    pub interactive: bool,
    /// Start empty instead of restoring base images.
    pub skip_recovery: bool,
}

/// A rejected combination of run modes.
#[derive(Clone, Copy, Debug, PartialEq, Eq, Structural)]
pub enum ConfigError {
    /// The console needs the terminal that daemonizing gives up.
    DaemonizeWithInteractive,
}

impl ConfigError {
    /// The message shown to the operator.
    pub fn message(&self) -> (r: &'static str)
        ensures
            r@ == "--daemonize is not allowed with --interactive: choose one"@,
    {
        match self {
            ConfigError::DaemonizeWithInteractive => "--daemonize is not allowed with --interactive: choose one",
        }
    }
}

/// Checks the run modes: daemonizing and the interactive console exclude
/// each other.
pub fn validate_modes(modes: RunModes) -> (r: Result<RunModes, ConfigError>)
    ensures
        modes.daemonize && modes.interactive ==> r == Err::<RunModes, ConfigError>(
            ConfigError::DaemonizeWithInteractive,
        ),
        !(modes.daemonize && modes.interactive) ==> r == Ok::<RunModes, ConfigError>(modes),
{
    if modes.daemonize && modes.interactive {
        Err(ConfigError::DaemonizeWithInteractive)
    } else {
        Ok(modes)
    }
}

} // verus!
