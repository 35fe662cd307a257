use vstd::prelude::*;
use std::collections::HashMap;

verus! {

/// A synchronous configuration source: collects raw key-value pairs and never fails.
pub trait Source {
    fn collect(&self) -> HashMap<String, String>;
}

} // verus!
