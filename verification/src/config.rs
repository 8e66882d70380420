//! The configuration bag: option names mapped to typed values.

use vstd::prelude::*;
use vstd::string::*;
use ahash::AHashMap;
use ahash::RandomState;

verus! {

/// A configured value.
pub enum Value {
    Int(i64),
    Bool(bool),
    String(String),
}

/// The content of a [`Value`].
pub enum ValueData {
    Int(i64),
    Bool(bool),
    String(Seq<char>),
}

impl View for Value {
    type V = ValueData;

    open spec fn view(&self) -> ValueData {
        match self {
            Value::Int(n) => ValueData::Int(*n),
            Value::Bool(b) => ValueData::Bool(*b),
            Value::String(s) => ValueData::String(s@),
        }
    }
}

/// The hash map of the `ahash` crate, carried as an opaque value.
#[verifier::external_type_specification]
#[verifier::external_body]
#[verifier::reject_recursive_types(K)]
#[verifier::reject_recursive_types(V)]
#[verifier::reject_recursive_types(S)]
pub struct ExAHashMap<K, V, S>(AHashMap<K, V, S>);

/// The hasher state of the `ahash` crate, which its hash map is made
/// with by default; carried as an opaque value.
#[verifier::external_type_specification]
#[verifier::external_body]
pub struct ExRandomState(RandomState);

/// The options that a configuration bag holds, by name.
pub uninterp spec fn config_entries(config: AHashMap<String, Value>) -> Map<Seq<char>, ValueData>;

/// Calls `AHashMap::get`, which looks the key up in the wrapped
/// `HashMap`: the value stored under `key` comes back, or `None` when the
/// bag holds no such option.
#[verifier::external_body]
pub(crate) fn config_get<'a>(config: &'a AHashMap<String, Value>, key: &str) -> (out: Option<
    &'a Value,
>)
    ensures
        match out {
            Some(v) => config_entries(*config).contains_key(key@) && config_entries(*config)[key@]
                == v@,
            None => !config_entries(*config).contains_key(key@),
        },
{
    config.get(key)
}

/// An option that a rule cannot accept as configured.
pub struct ConfigError {
    pub option: String,
}

/// The integer option `name`: absent, a number from 0 to the largest
/// `u32`, or anything else, which is an error.
pub open spec fn length_option(entries: Map<Seq<char>, ValueData>, name: Seq<char>) -> Result<
    Option<u32>,
    (),
> {
    if entries.contains_key(name) {
        match entries[name] {
            ValueData::Int(n) => if 0 <= n <= u32::MAX {
                Ok(Some(n as u32))
            } else {
                Err(())
            },
            _ => Err(()),
        }
    } else {
        Ok(None)
    }
}

/// Reads the integer option `name` as a length.
pub fn read_length_option(config: &AHashMap<String, Value>, name: &str) -> (out: Result<
    Option<u32>,
    ConfigError,
>)
    ensures
        match out {
            Ok(n) => length_option(config_entries(*config), name@) == Ok::<Option<u32>, ()>(n),
            Err(e) => length_option(config_entries(*config), name@) is Err && e.option@ == name@,
        },
{
    match config_get(config, name) {
        None => Ok(None),
        Some(Value::Int(n)) => {
            if 0 <= *n && *n <= 4294967295 {
                Ok(Some(*n as u32))
            } else {
                Err(ConfigError { option: name.to_owned() })
            }
        },
        Some(_) => Err(ConfigError { option: name.to_owned() }),
    }
}

/// The text option `name`, if the bag holds one.
pub open spec fn text_option(entries: Map<Seq<char>, ValueData>, name: Seq<char>) -> Option<
    Seq<char>,
> {
    if entries.contains_key(name) {
        match entries[name] {
            ValueData::String(s) => Some(s),
            _ => None,
        }
    } else {
        None
    }
}

/// Reads the text option `name`.
pub fn read_text_option<'a>(config: &'a AHashMap<String, Value>, name: &str) -> (out: Option<
    &'a str,
>)
    ensures
        match out {
            Some(s) => text_option(config_entries(*config), name@) == Some(s@),
            None => text_option(config_entries(*config), name@) is None,
        },
{
    match config_get(config, name) {
        Some(Value::String(s)) => Some(s.as_str()),
        _ => None,
    }
}

} // verus!
