use miau::{
    absorb, AsyncConfigurationBuilder, Configuration, ConfigurationBuilder, ConfigurationError, ConfigurationTree,
    Lens, Provider, ScalarValue, Source, SourceType, Transformer,
};
use std::cell::Cell;
use std::collections::HashMap;

struct MapSource(Vec<(&'static str, &'static str)>);

impl Source for MapSource {
    fn collect(&self) -> HashMap<String, String> {
        self.0.iter().map(|(k, v)| (k.to_string(), v.to_string())).collect()
    }
}

struct Flat;

impl Transformer for Flat {
    fn transform(&self, input: HashMap<String, String>) -> Result<Configuration, ConfigurationError> {
        let mut pairs: Vec<(String, String)> = input.into_iter().collect();
        pairs.sort();
        let entries = pairs
            .into_iter()
            .map(|(k, v)| (k, ConfigurationTree::Scalar(ScalarValue::Str(v))))
            .collect();
        Ok(Configuration::from_tree(ConfigurationTree::Mapping(entries)))
    }
}

struct Refusing;

impl Transformer for Refusing {
    fn transform(&self, _input: HashMap<String, String>) -> Result<Configuration, ConfigurationError> {
        Err(ConfigurationError::TransformError("refused".to_string()))
    }
}

struct Counting<'a>(&'a Cell<u32>);

impl<'a> Provider for Counting<'a> {
    fn collect(&self) -> Result<Configuration, ConfigurationError> {
        self.0.set(self.0.get() + 1);
        Ok(Configuration::new())
    }
}

#[test]
fn build_keeps_registration_order() {
    let mut b = ConfigurationBuilder::new();
    let c = b
        .add(MapSource(vec![("a", "1"), ("b", "2")]), Flat)
        .add(MapSource(vec![("a", "3")]), Flat)
        .build()
        .unwrap();
    assert_eq!(c.roots.len(), 2);
    let lens = Lens::new(&c);
    assert_eq!(lens.get::<String>("a"), Some("3".to_string()));
    assert_eq!(lens.get::<String>("b"), Some("2".to_string()));
}

#[test]
fn build_stops_at_first_failure() {
    let count = Cell::new(0);
    let mut b = ConfigurationBuilder::new();
    b.add(MapSource(vec![("a", "1")]), Flat);
    b.add(MapSource(vec![]), Refusing);
    b.add_provider(Counting(&count));
    assert_eq!(b.build().unwrap_err(), ConfigurationError::TransformError("refused".to_string()));
    assert_eq!(count.get(), 0);
}

#[test]
fn absorb_appends_or_passes_the_error_on() {
    let first = Configuration::from_tree(ConfigurationTree::Scalar(ScalarValue::Int(1)));
    let second = Configuration::from_tree(ConfigurationTree::Scalar(ScalarValue::Int(2)));
    let c = absorb(first, Ok(second)).unwrap();
    assert_eq!(c.roots[0].root, ConfigurationTree::Scalar(ScalarValue::Int(1)));
    assert_eq!(c.roots[1].root, ConfigurationTree::Scalar(ScalarValue::Int(2)));
    let e = absorb(c, Err(ConfigurationError::NoRoots)).unwrap_err();
    assert_eq!(e, ConfigurationError::NoRoots);
}

#[test]
fn async_builder_matches_sync_builder() {
    let mut sync = ConfigurationBuilder::new();
    sync.add(MapSource(vec![("a", "1"), ("b", "2")]), Flat);
    sync.add(MapSource(vec![("a", "3")]), Flat);
    let expected = sync.build().unwrap();

    let mut first = ConfigurationBuilder::new();
    first.add(MapSource(vec![("a", "1"), ("b", "2")]), Flat);
    let mut staged: AsyncConfigurationBuilder<'_, MapSource> = first.add_async(MapSource(vec![("a", "3")]));
    staged.add(MapSource(vec![("c", "4")]), Flat);
    let mut result = Configuration::new();
    for s in staged.into_sources() {
        let fragment = match s {
            SourceType::Synchronous(p) => p.collect(),
            SourceType::Asynchronous(src) => Flat.transform(src.collect()),
        };
        result = absorb(result, fragment).unwrap();
    }
    assert_eq!(result.roots.len(), 3);
    assert_eq!(result.roots[0].root, expected.roots[0].root);
    assert_eq!(result.roots[1].root, expected.roots[1].root);
    assert_eq!(Lens::new(&result).get::<String>("a"), Some("3".to_string()));
    assert_eq!(Lens::new(&result).get::<String>("c"), Some("4".to_string()));
}

#[test]
fn empty_builder_builds_empty_configuration() {
    let mut b = ConfigurationBuilder::new();
    assert_eq!(b.build().unwrap().roots.len(), 0);
}

#[test]
fn default_builder_has_no_providers() {
    let mut b = ConfigurationBuilder::default();
    assert_eq!(b.build().unwrap().roots.len(), 0);
}
