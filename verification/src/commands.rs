//! The data carried by the operator-facing initialisation command; argument
//! parsing and execution live with the embedding application.

use vstd::prelude::*;

verus! {

/// The initialisation command: exercises the pipeline once for a synthetic
/// message, useful for bring-up and diagnostics.
#[derive(Clone, PartialEq, Debug)]
pub struct InitCommand {
    /// An explicit configuration file path, when given.
    pub config: Option<String>,
    /// The height to initialise at.
    pub height: Option<i64>,
    /// The round to initialise at.
    pub round: Option<i64>,
    /// The step to initialise at.
    pub step: Option<i64>,
}

/// The operator-facing command group for the hardware-backed signer.
#[derive(Clone, PartialEq, Debug)]
pub enum LedgerCommand {
    /// Initialise the height, round and step.
    Initialise(InitCommand),
}

impl LedgerCommand {
    /// The configuration file path the command was given, if any.
    pub fn config_path(&self) -> (r: Option<&str>)
        ensures
            r matches Some(s) ==> (self matches LedgerCommand::Initialise(i) && i.config matches
                Some(c) && s@ == c@),
            r is None ==> (self matches LedgerCommand::Initialise(i) && i.config is None),
    {
        match self {
            LedgerCommand::Initialise(init) => match &init.config {
                Some(c) => Some(c.as_str()),
                None => None,
            },
        }
    }
}

} // verus!
