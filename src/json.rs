use vstd::prelude::*;
use crate::configuration::Configuration;
use crate::error::ConfigurationError;
use crate::format::Format;
use crate::tree::{lemma_entries_view_index, lemma_items_view_index, tree_view, well_formed, ConfigurationTree};
use crate::value::ScalarValue;

verus! {

/// Whether serde_json accepts `bytes` as one JSON document.
pub uninterp spec fn json_accepts(bytes: Seq<u8>) -> bool;

/// Relies on serde_json::from_slice: it parses one JSON document, and whether
/// it succeeds depends on the bytes alone.
#[verifier::external_body]
fn parse_json(input: &[u8]) -> (r: Result<serde_json::Value, serde_json::Error>)
    ensures
        r.is_ok() == json_accepts(input@),
{
    serde_json::from_slice(input)
}

/// Relies on serde_json::Error's `Display`: the parser's message.
#[verifier::external_body]
fn json_error_message(e: &serde_json::Error) -> String {
    e.to_string()
}

/// Relies on serde_json::Number::as_f64, which every number parsed from JSON
/// has; the bit pattern of that reading.
#[verifier::external_body]
fn float_bits(n: &serde_json::Number) -> u64 {
    n.as_f64().map_or(0, |x| x.to_bits())
}

/// One level of a JSON document, its children still unconverted.
pub enum JsonLayer {
    Null,
    Bool(bool),
    Number(serde_json::Number),
    Str(String),
    Array(Vec<serde_json::Value>),
    Object(Vec<(String, serde_json::Value)>),
}

/// Relies on the variants of serde_json::Value; an object is a map (an
/// insertion-ordered one, as this crate enables serde_json's
/// `preserve_order`), so the names of its entries are pairwise distinct.
#[verifier::external_body]
fn json_layer(v: serde_json::Value) -> (r: JsonLayer)
    ensures
        r matches JsonLayer::Object(es) ==> forall|i: int, j: int|
            0 <= i < j < es@.len() ==> es@[i].0@ != es@[j].0@,
{
    match v {
        serde_json::Value::Null => JsonLayer::Null,
        serde_json::Value::Bool(b) => JsonLayer::Bool(b),
        serde_json::Value::Number(n) => JsonLayer::Number(n),
        serde_json::Value::String(s) => JsonLayer::Str(s),
        serde_json::Value::Array(a) => JsonLayer::Array(a),
        serde_json::Value::Object(m) => JsonLayer::Object(m.into_iter().collect()),
    }
}

/// Nesting depth beyond which a document is refused; serde_json itself
/// refuses documents nested deeper than 128 levels.
pub const MAX_DEPTH: u64 = 256;

/// Converts a JSON number: an integer that fits in `i64` stays an integer,
/// anything else becomes a float.
fn value_of_number(n: &serde_json::Number) -> (r: ScalarValue)
    ensures
        r is Int || r is Float,
{
    match n.as_i64() {
        Some(i) => ScalarValue::Int(i),
        None => ScalarValue::Float(float_bits(n)),
    }
}

/// Converts a JSON value into a configuration tree, refusing nesting deeper than `depth`.
fn tree_of_json(v: serde_json::Value, depth: u64) -> (r: Result<ConfigurationTree, ConfigurationError>)
    ensures
        r matches Ok(t) ==> well_formed(t@),
        r matches Err(e) ==> e is TransformError,
    decreases depth,
{
    match json_layer(v) {
        JsonLayer::Null => Ok(ConfigurationTree::Scalar(ScalarValue::Null)),
        JsonLayer::Bool(b) => Ok(ConfigurationTree::Scalar(ScalarValue::Bool(b))),
        JsonLayer::Number(n) => Ok(ConfigurationTree::Scalar(value_of_number(&n))),
        JsonLayer::Str(s) => Ok(ConfigurationTree::Scalar(ScalarValue::Str(s))),
        JsonLayer::Array(items) => {
            if depth == 0 {
                return Err(ConfigurationError::TransformError(String::from_str("nesting too deep")));
            }
            let mut items = items;
            let mut out: Vec<ConfigurationTree> = Vec::new();
            while items.len() > 0
                invariant
                    depth > 0,
                    forall|i: int| 0 <= i < out@.len() ==> well_formed(#[trigger] out@[i]@),
                decreases items@.len(),
            {
                let item = items.remove(0);
                match tree_of_json(item, depth - 1) {
                    Ok(t) => out.push(t),
                    Err(e) => return Err(e),
                }
            }
            proof {
                lemma_items_view_index(out@);
                assert(forall|i: int| 0 <= i < out@.len() ==> out@[i]@ == #[trigger] tree_view(out@[i]));
            }
            let r = ConfigurationTree::Sequence(out);
            assert(well_formed(r@));
            Ok(r)
        },
        JsonLayer::Object(entries) => {
            if depth == 0 {
                return Err(ConfigurationError::TransformError(String::from_str("nesting too deep")));
            }
            let mut entries = entries;
            let ghost orig = entries@;
            let mut out: Vec<(String, ConfigurationTree)> = Vec::new();
            while entries.len() > 0
                invariant
                    depth > 0,
                    forall|i: int, j: int| 0 <= i < j < orig.len() ==> orig[i].0@ != orig[j].0@,
                    out@.len() + entries@.len() == orig.len(),
                    entries@ == orig.subrange(out@.len() as int, orig.len() as int),
                    forall|i: int| 0 <= i < out@.len() ==> (#[trigger] out@[i]).0@ == orig[i].0@,
                    forall|i: int| 0 <= i < out@.len() ==> well_formed((#[trigger] out@[i]).1@),
                decreases entries@.len(),
            {
                let ghost before = entries@;
                assert(before[0] == orig[out@.len() as int]);
                let (k, item) = entries.remove(0);
                assert(entries@ =~= orig.subrange(out@.len() as int + 1, orig.len() as int));
                match tree_of_json(item, depth - 1) {
                    Ok(t) => out.push((k, t)),
                    Err(e) => return Err(e),
                }
            }
            proof {
                lemma_entries_view_index(out@);
                assert(out@.len() == orig.len());
            }
            let r = ConfigurationTree::Mapping(out);
            assert(well_formed(r@));
            Ok(r)
        },
    }
}

/// Reads configuration from JSON documents.
pub struct JsonDeserializer {}

impl JsonDeserializer {
    pub fn new() -> (r: JsonDeserializer)
        ensures
            r == (JsonDeserializer {}),
    {
        JsonDeserializer {}
    }

    /// Parses `input` as one JSON document into a configuration of one tree.
    pub fn parse(&self, input: &Vec<u8>) -> (r: Result<Configuration, ConfigurationError>)
        ensures
            !json_accepts(input@) ==> r is Err,
            r matches Ok(c) ==> c@.len() == 1 && well_formed(c@[0]),
            r matches Err(e) ==> e is TransformError,
    {
        match parse_json(input.as_slice()) {
            Ok(v) => match tree_of_json(v, MAX_DEPTH) {
                Ok(t) => Ok(Configuration::from_tree(t)),
                Err(e) => Err(e),
            },
            Err(e) => Err(ConfigurationError::TransformError(json_error_message(&e))),
        }
    }
}

impl Default for JsonDeserializer {
    fn default() -> (r: JsonDeserializer)
        ensures
            r == (JsonDeserializer {}),
    {
        JsonDeserializer::new()
    }
}

impl Format for JsonDeserializer {
    fn transform(&self, input: Vec<u8>) -> Result<Configuration, ConfigurationError> {
        self.parse(&input)
    }
}

} // verus!
