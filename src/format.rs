use vstd::prelude::*;
use std::collections::HashMap;
use crate::configuration::Configuration;
use crate::error::ConfigurationError;

verus! {

/// Turns the raw pairs of a source into a configuration; the one fallible step.
pub trait Transformer {
    fn transform(&self, input: HashMap<String, String>) -> Result<Configuration, ConfigurationError>;
}

/// Turns raw bytes of some document format into a configuration.
pub trait Format {
    fn transform(&self, input: Vec<u8>) -> Result<Configuration, ConfigurationError>;
}

} // verus!
