//! The configuration: built-in defaults, overrides read from a TOML text, and
//! the settings that result field by field.
use vstd::prelude::*;
use vstd::string::StringExecFns;
use crate::text::chars_of;

verus! {

#[verifier::external_type_specification]
#[verifier::external_body]
pub struct ExTomlError(toml::de::Error);

#[verifier::external_type_specification]
#[verifier::external_body]
pub struct ExTomlValue(toml::Value);

#[verifier::external_type_specification]
#[verifier::external_body]
#[verifier::reject_recursive_types(K)]
#[verifier::reject_recursive_types(V)]
pub struct ExTomlMap<K, V>(toml::map::Map<K, V>);

/// The entries of a TOML table, key by key: `Some(text)` for a string value,
/// `None` for a value of any other kind.
pub uninterp spec fn table_entries(t: toml::map::Map<String, toml::Value>) -> Map<
    Seq<char>,
    Option<Seq<char>>,
>;

/// What a text holds read as a TOML document: `None` where it is none, else
/// the entries of its top-level table, as `table_entries` gives them.
pub uninterp spec fn toml_document(text: Seq<char>) -> Option<Map<Seq<char>, Option<Seq<char>>>>;

/// The most characters that open a nested value (`[`, `{`, or the `.` of a
/// dotted key) that a configuration text may hold. The TOML parser recurses
/// once for each level of nesting, with no limit of its own.
pub const MAX_NESTING_MARKS: usize = 64;

/// Whether a character can open a level of nesting in a TOML text.
pub open spec fn is_nesting_mark(c: char) -> bool {
    c == '[' || c == '{' || c == '.'
}

/// The number of characters of `s` that can open a level of nesting; a
/// bound on how deep a TOML text nests.
pub open spec fn nesting_marks(s: Seq<char>) -> nat
    decreases s.len(),
{
    if s.len() == 0 {
        0
    } else {
        nesting_marks(s.drop_last()) + if is_nesting_mark(s.last()) {
            1nat
        } else {
            0nat
        }
    }
}

/// The number of characters of `text` that can open a level of nesting.
pub fn count_nesting_marks(text: &str) -> (r: usize)
    ensures
        r == nesting_marks(text@),
{
    let chars = chars_of(text);
    let mut count: usize = 0;
    let mut i: usize = 0;
    assert(chars@.take(0) =~= Seq::<char>::empty());
    while i < chars.len()
        invariant
            i <= chars@.len(),
            count <= i,
            count == nesting_marks(chars@.take(i as int)),
        decreases chars@.len() - i,
    {
        assert(chars@.take(i + 1).drop_last() =~= chars@.take(i as int));
        let c = chars[i];
        if c == '[' || c == '{' || c == '.' {
            count = count + 1;
        }
        i = i + 1;
    }
    assert(chars@.take(i as int) =~= chars@);
    count
}

/// Relies on `toml::from_str` read into a `toml::value::Table`: it fails where
/// the text is no TOML document, and the table depends on the text alone.
/// The parser recurses once per level of nesting, so the text's nesting is
/// bounded here to keep it from running out of stack.
#[verifier::external_body]
fn parse_table(text: &str) -> (r: Result<toml::value::Table, toml::de::Error>)
    requires
        nesting_marks(text@) <= MAX_NESTING_MARKS,
    ensures
        r is Ok <==> toml_document(text@) is Some,
        r is Ok ==> toml_document(text@) == Some(table_entries(r->Ok_0)),
{
    toml::from_str(text)
}

/// Relies on `toml::map::Map::get`: `None` for a key that the table lacks,
/// `Some(Some(text))` for a `toml::Value::String`, `Some(None)` for any other value.
#[verifier::external_body]
fn table_field(t: &toml::value::Table, key: &str) -> (r: Option<Option<String>>)
    ensures
        r is None <==> !table_entries(*t).contains_key(key@),
        r is Some ==> table_entries(*t)[key@] == view_text(r->Some_0),
{
    match t.get(key) {
        None => None,
        Some(toml::Value::String(s)) => Some(Some(s.clone())),
        Some(_) => Some(None),
    }
}

/// The character view of an optional string.
pub open spec fn view_text(o: Option<String>) -> Option<Seq<char>> {
    match o {
        Some(s) => Some(s@),
        None => None,
    }
}

pub open spec fn default_delimiter() -> Seq<char> {
    ","@
}

pub open spec fn default_url() -> Seq<char> {
    "https://example.org"@
}

/// Overrides of the built-in settings; a field that is `None` keeps its default.
pub struct Config {
    pub delimiter: Option<String>,
    pub url: Option<String>,
}

/// Settings with every field decided.
pub struct Settings {
    /// The text that separates the two fields of a line.
    pub delimiter: String,
    /// The text taken out of both fields wherever it occurs.
    pub url: String,
}

impl Default for Config {
    /// Both fields set to their built-in values.
    fn default() -> (r: Config)
        ensures
            view_text(r.delimiter) == Some(default_delimiter()),
            view_text(r.url) == Some(default_url()),
    {
        Config { delimiter: Some(String::from_str(",")), url: Some(String::from_str("https://example.org")) }
    }
}

/// The field of a configuration file that is at fault.
#[derive(Debug, Clone, Copy, PartialEq, Eq, Structural)]
pub enum ConfigField {
    Delimiter,
    Url,
}

#[derive(Debug, Clone, Copy, PartialEq, Eq, Structural)]
pub enum ConfigError {
    /// The text nests deeper than a configuration may.
    TooNested,
    /// The text is no TOML document.
    Syntax,
    /// The field is present but holds no string.
    NotText(ConfigField),
}

/// An override, or the default where there is none.
pub open spec fn settle(o: Option<Seq<char>>, default: Seq<char>) -> Seq<char> {
    match o {
        Some(s) => s,
        None => default,
    }
}

/// The delimiter that a configuration, or its absence, gives.
pub open spec fn resolved_delimiter(c: Option<Config>) -> Seq<char> {
    match c {
        Some(c) => settle(view_text(c.delimiter), default_delimiter()),
        None => default_delimiter(),
    }
}

/// The url that a configuration, or its absence, gives.
pub open spec fn resolved_url(c: Option<Config>) -> Seq<char> {
    match c {
        Some(c) => settle(view_text(c.url), default_url()),
        None => default_url(),
    }
}

fn settle_field(o: Option<String>, default: &str) -> (r: String)
    ensures
        r@ == settle(view_text(o), default@),
{
    match o {
        Some(s) => s,
        None => String::from_str(default),
    }
}

/// The settings: each field of `config` that is set, the default for every
/// other field, and the defaults alone where there is no configuration.
pub fn resolve(config: Option<Config>) -> (r: Settings)
    ensures
        r.delimiter@ == resolved_delimiter(config),
        r.url@ == resolved_url(config),
{
    match config {
        Some(c) => Settings {
            delimiter: settle_field(c.delimiter, ","),
            url: settle_field(c.url, "https://example.org"),
        },
        None => Settings {
            delimiter: String::from_str(","),
            url: String::from_str("https://example.org"),
        },
    }
}

/// A field of a TOML table as `table_field` reports it is acceptable: absent,
/// or a string.
pub open spec fn field_is_text(f: Option<Option<Seq<char>>>) -> bool {
    match f {
        Some(None) => false,
        _ => true,
    }
}

/// The text of an acceptable field, `None` where it is absent.
pub open spec fn field_text(f: Option<Option<Seq<char>>>) -> Option<Seq<char>> {
    match f {
        Some(Some(s)) => Some(s),
        _ => None,
    }
}

pub open spec fn view_field(f: Option<Option<String>>) -> Option<Option<Seq<char>>> {
    match f {
        Some(o) => Some(view_text(o)),
        None => None,
    }
}

/// The entry that a table's entries hold under `key`.
pub open spec fn entry(e: Map<Seq<char>, Option<Seq<char>>>, key: Seq<char>) -> Option<
    Option<Seq<char>>,
> {
    if e.contains_key(key) {
        Some(e[key])
    } else {
        None
    }
}

/// What a configuration file whose two fields read as given holds: an
/// error for the first field that holds no string, else the overrides.
pub open spec fn config_of_fields(
    delimiter: Option<Option<Seq<char>>>,
    url: Option<Option<Seq<char>>>,
    r: Result<Config, ConfigError>,
) -> bool {
    if !field_is_text(delimiter) {
        r == Err::<Config, ConfigError>(ConfigError::NotText(ConfigField::Delimiter))
    } else if !field_is_text(url) {
        r == Err::<Config, ConfigError>(ConfigError::NotText(ConfigField::Url))
    } else {
        &&& r is Ok
        &&& view_text(r->Ok_0.delimiter) == field_text(delimiter)
        &&& view_text(r->Ok_0.url) == field_text(url)
    }
}

/// The overrides from the two fields of a configuration file, each `None`
/// when absent, `Some(None)` when it holds something other than a string.
pub fn config_from_fields(delimiter: Option<Option<String>>, url: Option<Option<String>>) -> (r:
    Result<Config, ConfigError>)
    ensures
        config_of_fields(view_field(delimiter), view_field(url), r),
{
    let d = match delimiter {
        Some(Some(s)) => Some(s),
        Some(None) => {
            return Err(ConfigError::NotText(ConfigField::Delimiter));
        },
        None => None,
    };
    let u = match url {
        Some(Some(s)) => Some(s),
        Some(None) => {
            return Err(ConfigError::NotText(ConfigField::Url));
        },
        None => None,
    };
    Ok(Config { delimiter: d, url: u })
}

/// The overrides that a TOML text gives: `TooNested` where it holds more
/// than `MAX_NESTING_MARKS` characters that open a nested value, `Syntax`
/// where it is no TOML document, else what its `delimiter` and `url`
/// entries give.
pub fn parse_config(text: &str) -> (r: Result<Config, ConfigError>)
    ensures
        nesting_marks(text@) > MAX_NESTING_MARKS ==> r == Err::<Config, ConfigError>(
            ConfigError::TooNested,
        ),
        nesting_marks(text@) <= MAX_NESTING_MARKS && toml_document(text@) is None ==> r == Err::<
            Config,
            ConfigError,
        >(ConfigError::Syntax),
        nesting_marks(text@) <= MAX_NESTING_MARKS && toml_document(text@) is Some
            ==> config_of_fields(
            entry(toml_document(text@)->Some_0, "delimiter"@),
            entry(toml_document(text@)->Some_0, "url"@),
            r,
        ),
{
    if count_nesting_marks(text) > MAX_NESTING_MARKS {
        return Err(ConfigError::TooNested);
    }
    let table = match parse_table(text) {
        Ok(t) => t,
        Err(_) => {
            return Err(ConfigError::Syntax);
        },
    };
    let d = table_field(&table, "delimiter");
    let u = table_field(&table, "url");
    config_from_fields(d, u)
}

/// A configuration file read without error takes its defaults field by
/// field: a field it leaves out keeps the built-in value, and a field it sets
/// takes the value set, whatever the other field holds.
pub proof fn law_field_defaults(text: Seq<char>, c: Config)
    requires
        toml_document(text) is Some,
        config_of_fields(
            entry(toml_document(text)->Some_0, "delimiter"@),
            entry(toml_document(text)->Some_0, "url"@),
            Ok(c),
        ),
    ensures
        entry(toml_document(text)->Some_0, "delimiter"@) is None ==> resolved_delimiter(Some(c))
            == default_delimiter(),
        entry(toml_document(text)->Some_0, "url"@) is None ==> resolved_url(Some(c))
            == default_url(),
        entry(toml_document(text)->Some_0, "delimiter"@) is Some ==> Some(
            resolved_delimiter(Some(c)),
        ) == entry(toml_document(text)->Some_0, "delimiter"@)->Some_0,
        entry(toml_document(text)->Some_0, "url"@) is Some ==> Some(resolved_url(Some(c)))
            == entry(toml_document(text)->Some_0, "url"@)->Some_0,
{
}

} // verus!
