use miau::{
    CompoundKey, Configuration, ConfigurationDefinition, ConfigurationError, ConfigurationTree, Format,
    JsonDeserializer, Key, Lens, ScalarValue,
};

fn json(text: &str) -> Configuration {
    JsonDeserializer::new().transform(text.as_bytes().to_vec()).unwrap()
}

fn two(first: &str, second: &str) -> Configuration {
    let mut c = json(first);
    c.append(json(second));
    c
}

fn field<'a>(t: &'a ConfigurationTree, name: &str) -> &'a ConfigurationTree {
    t.descend(&Key::Field(name.to_string())).unwrap()
}

#[test]
fn later_source_wins_and_single_keys_survive() {
    let c = two(r#"{"a": 1, "b": 2}"#, r#"{"a": 3, "c": 4}"#);
    let lens = Lens::new(&c);
    assert_eq!(lens.get::<i64>("a"), Some(3));
    assert_eq!(lens.get::<i64>("b"), Some(2));
    assert_eq!(lens.get::<i64>("c"), Some(4));
    let merged = Lens::new(&c).merge_cloned().unwrap();
    assert_eq!(field(&merged, "a"), &ConfigurationTree::Scalar(ScalarValue::Int(3)));
    assert_eq!(field(&merged, "b"), &ConfigurationTree::Scalar(ScalarValue::Int(2)));
    assert_eq!(field(&merged, "c"), &ConfigurationTree::Scalar(ScalarValue::Int(4)));
}

#[test]
fn merge_keeps_nested_keys_of_both_sides() {
    let c = two(r#"{"s": {"x": 1, "y": 2}}"#, r#"{"s": {"y": 5, "z": 6}}"#);
    let merged = c.merge_cloned().unwrap();
    let s = field(&merged, "s");
    assert_eq!(field(s, "x"), &ConfigurationTree::Scalar(ScalarValue::Int(1)));
    assert_eq!(field(s, "y"), &ConfigurationTree::Scalar(ScalarValue::Int(5)));
    assert_eq!(field(s, "z"), &ConfigurationTree::Scalar(ScalarValue::Int(6)));
}

#[test]
fn sequences_are_replaced_whole() {
    let c = two(r#"{"l": [1, 2, 3]}"#, r#"{"l": [9]}"#);
    let merged = c.merge_cloned().unwrap();
    assert_eq!(
        field(&merged, "l"),
        &ConfigurationTree::Sequence(vec![ConfigurationTree::Scalar(ScalarValue::Int(9))])
    );
}

#[test]
fn descend_many_with_empty_key_is_identity() {
    let c = json(r#"{"a": {"b": true}}"#);
    let root = &c.roots[0].root;
    let empty = CompoundKey { keys: vec![] };
    let same = root.descend_many(&empty).unwrap();
    assert!(std::ptr::eq(same, root));
    assert_eq!(CompoundKey::parse("").unwrap().keys, vec![]);
}

#[test]
fn empty_segment_is_a_key_parse_error() {
    assert_eq!(
        CompoundKey::parse("a..b").unwrap_err(),
        ConfigurationError::KeyParseError("a..b".to_string())
    );
    let c = json(r#"{"a": 1}"#);
    let lens = Lens::new(&c);
    assert!(matches!(lens.get_result::<i64>("a..b"), Err(ConfigurationError::KeyParseError(_))));
    assert_eq!(lens.get::<i64>("a..b"), None);
    assert!(lens.try_lens("a..b").is_err());
}

#[test]
fn numeric_segment_indexes_a_sequence() {
    let key = CompoundKey::parse("a.0.b").unwrap();
    assert_eq!(key.keys, vec![Key::Field("a".to_string()), Key::Index(0), Key::Field("b".to_string())]);
    let c = json(r#"{"a": [{"b": 7}, {"b": 8}]}"#);
    let lens = Lens::new(&c);
    assert_eq!(lens.get::<i64>("a.0.b"), Some(7));
    assert_eq!(lens.get::<i64>("a.[1].b"), Some(8));
    assert_eq!(lens.get::<i64>("a.2.b"), None);
}

#[test]
fn malformed_paths_are_refused() {
    for bad in ["a.", ".a", "a[", "a.[x]", "a.[]", "a.b]", "a.[1", "a.99999999999999999999999"] {
        assert!(matches!(CompoundKey::parse(bad), Err(ConfigurationError::KeyParseError(_))), "{}", bad);
    }
    assert_eq!(CompoundKey::parse("[3]").unwrap().keys, vec![Key::Index(3)]);
}

#[test]
fn try_lens_drops_roots_without_the_path() {
    let c = two(r#"{"server": {"port": 8080}}"#, r#"{"client": {"retries": 3}}"#);
    let lens = Lens::new(&c);
    let scoped = lens.try_lens("server").unwrap();
    assert_eq!(scoped.get::<i64>("port"), Some(8080));
    assert_eq!(scoped.get::<i64>("retries"), None);
    let merged = scoped.merge_cloned().unwrap();
    assert_eq!(field(&merged, "port"), &ConfigurationTree::Scalar(ScalarValue::Int(8080)));
    let nowhere = Lens::new(&c).try_lens("missing").unwrap();
    assert_eq!(nowhere.get::<i64>("port"), None);
    assert_eq!(nowhere.merge_cloned().unwrap_err(), ConfigurationError::NoRoots);
}

#[test]
fn json_round_trip_reads_port() {
    let c = json(r#"{"server":{"port":8080}}"#);
    let lens = Lens::new(&c);
    assert_eq!(lens.get::<i64>("server.port"), Some(8080));
    let single = Lens::new_singular(&c.roots[0]);
    assert_eq!(single.get::<i64>("server.port"), Some(8080));
}

#[test]
fn shape_conflict_resolves_to_later_shape() {
    let c = two(r#"{"k": {"x": 1}}"#, r#"{"k": [1, 2]}"#);
    let merged = c.merge_cloned().unwrap();
    assert_eq!(
        field(&merged, "k"),
        &ConfigurationTree::Sequence(vec![
            ConfigurationTree::Scalar(ScalarValue::Int(1)),
            ConfigurationTree::Scalar(ScalarValue::Int(2)),
        ])
    );
    let back = two(r#"{"k": [1, 2]}"#, r#"{"k": {"x": 1}}"#);
    let merged = back.merge_cloned().unwrap();
    assert_eq!(
        field(&merged, "k"),
        &ConfigurationTree::Mapping(vec![("x".to_string(), ConfigurationTree::Scalar(ScalarValue::Int(1)))])
    );
}

#[test]
fn wrong_type_is_a_conversion_error() {
    let c = json(r#"{"a": 1, "m": {"x": 1}}"#);
    let lens = Lens::new(&c);
    assert_eq!(lens.get_result::<bool>("a"), Err(ConfigurationError::TypeConversionError));
    assert_eq!(lens.get_result::<i64>("m"), Err(ConfigurationError::TypeConversionError));
    assert_eq!(lens.get::<bool>("a"), None);
    assert_eq!(lens.get_result::<i64>("b"), Ok(None));
}

#[test]
fn scalar_kinds_are_read() {
    let c = json(r#"{"s": "text", "t": true, "n": null, "f": 1.5, "big": 18446744073709551615}"#);
    let lens = Lens::new(&c);
    assert_eq!(lens.get::<String>("s"), Some("text".to_string()));
    assert_eq!(lens.get::<bool>("t"), Some(true));
    assert_eq!(lens.get::<ScalarValue>("n"), Some(ScalarValue::Null));
    assert_eq!(lens.get::<ScalarValue>("f"), Some(ScalarValue::Float(1.5f64.to_bits())));
    assert_eq!(lens.get::<ScalarValue>("big"), Some(ScalarValue::Float((u64::MAX as f64).to_bits())));
}

#[test]
fn malformed_json_is_a_transform_error() {
    let r = JsonDeserializer::new().transform(b"{\"a\": ".to_vec());
    assert!(matches!(r, Err(ConfigurationError::TransformError(m)) if !m.is_empty()));
}

#[test]
fn empty_configuration_has_nothing_to_merge() {
    let c = Configuration::new();
    assert_eq!(c.merge_cloned().unwrap_err(), ConfigurationError::NoRoots);
    assert_eq!(Lens::new(&c).get::<i64>("a"), None);
    let d = ConfigurationDefinition::new(ConfigurationTree::Scalar(ScalarValue::Int(4)));
    assert_eq!(Lens::new_singular(&d).get::<i64>(""), Some(4));
}

#[test]
fn lookup_skips_values_that_do_not_convert() {
    let c = two(r#"{"a": 1}"#, r#"{"a": true}"#);
    let lens = Lens::new(&c);
    assert_eq!(lens.get::<i64>("a"), Some(1));
    assert_eq!(lens.get::<bool>("a"), Some(true));
    assert_eq!(lens.get_result::<String>("a"), Err(ConfigurationError::TypeConversionError));
    assert_eq!(lens.get::<String>("a"), None);
}

#[test]
fn json_objects_keep_document_order() {
    let c = json(r#"{"z": 1, "a": 2}"#);
    match &c.roots[0].root {
        ConfigurationTree::Mapping(entries) => {
            assert_eq!(entries[0].0, "z");
            assert_eq!(entries[1].0, "a");
        }
        other => panic!("{:?}", other),
    }
}

#[test]
fn parse_errors_carry_the_path() {
    let c = json(r#"{"a": 1}"#);
    let lens = Lens::new(&c);
    assert_eq!(lens.get_result::<i64>("a[").unwrap_err(), ConfigurationError::KeyParseError("a[".to_string()));
    assert_eq!(lens.try_lens("x..").unwrap_err(), ConfigurationError::KeyParseError("x..".to_string()));
}

#[test]
fn json_document_becomes_matching_tree() {
    let c = json(r#"{"server":{"port":8080}}"#);
    assert_eq!(c.roots.len(), 1);
    let port = ConfigurationTree::Mapping(vec![("port".to_string(), ConfigurationTree::Scalar(ScalarValue::Int(8080)))]);
    assert_eq!(c.roots[0].root, ConfigurationTree::Mapping(vec![("server".to_string(), port)]));
}

#[test]
fn empty_key_after_lensing_reads_the_node() {
    let c = json(r#"{"server":{"port":8080}}"#);
    let lens = Lens::new(&c);
    let scoped = lens.try_lens("server.port").unwrap();
    assert_eq!(scoped.get::<i64>(""), Some(8080));
    let from: Lens = Lens::from(&c);
    assert_eq!(from.get::<i64>("server.port"), Some(8080));
}
