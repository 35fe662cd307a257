use vstd::prelude::*;
use crate::configuration::Configuration;
use crate::error::ConfigurationError;
use crate::format::Transformer;
use crate::source::Source;

verus! {

/// Anything that yields a ready configuration fragment.
pub trait Provider {
    fn collect(&self) -> Result<Configuration, ConfigurationError>;
}

/// A source paired with the transformer that reads what it collects.
pub struct ProviderStruct<S, D> {
    pub source: S,
    pub de: D,
}

impl<S, D> ProviderStruct<S, D> {
    pub fn synchronous(source: S, de: D) -> (r: ProviderStruct<S, D>)
        ensures
            r.source == source,
            r.de == de,
    {
        ProviderStruct { source, de }
    }
}

impl<S: Source, D: Transformer> Provider for ProviderStruct<S, D> {
    fn collect(&self) -> Result<Configuration, ConfigurationError> {
        let raw = self.source.collect();
        self.de.transform(raw)
    }
}

} // verus!
