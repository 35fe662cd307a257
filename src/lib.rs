pub mod builder;
pub mod configuration;
pub mod error;
pub mod format;
pub mod json;
pub mod json_types;
pub mod key;
pub mod lens;
pub mod provider;
pub mod source;
pub mod tree;
pub mod value;

pub use builder::{AsyncConfigurationBuilder, BoxedProvider, ConfigurationBuilder, SourceType};
pub use configuration::{absorb, Configuration, ConfigurationDefinition};
pub use error::ConfigurationError;
pub use format::{Format, Transformer};
pub use json::JsonDeserializer;
pub use key::{CompoundKey, Key};
pub use lens::Lens;
pub use provider::{Provider, ProviderStruct};
pub use source::Source;
pub use tree::ConfigurationTree;
pub use value::{FromValue, ScalarValue};
