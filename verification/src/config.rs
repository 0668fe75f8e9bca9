//! Launch configuration of a debug session.

use vstd::prelude::*;

verus! {

/// What the client asks to debug, as given in the `launch` request.
#[derive(Debug, Clone)]
pub struct LaunchConfig {
    pub project_root: String,
    pub test: Option<String>,
    pub contract: Option<String>,
    pub script: Option<String>,
    pub sig: Option<String>,
    pub profile: Option<String>,
    pub fork_url: Option<String>,
    pub fork_block_number: Option<u64>,
    pub verbosity: Option<u8>,
}

/// Why a launch configuration is refused.
#[derive(Debug, Clone, Copy, PartialEq, Eq)]
pub enum ConfigError {
    /// Neither a test nor a script was named.
    MissingTestOrScript,
}

impl ConfigError {
    /// The message shown to the user.
    pub fn message(&self) -> (r: String)
        ensures
            r@ == "Launch config must specify either 'test' or 'script'"@,
    {
        String::from_str("Launch config must specify either 'test' or 'script'")
    }
}

impl LaunchConfig {
    /// A configuration is usable when it names a test or a script.
    pub fn validate(&self) -> (r: Result<(), ConfigError>)
        ensures
            r is Err <==> (self.test is None && self.script is None),
            r matches Err(e) ==> e == ConfigError::MissingTestOrScript,
    {
        if self.test.is_none() && self.script.is_none() {
            return Err(ConfigError::MissingTestOrScript);
        }
        Ok(())
    }
}

} // verus!
