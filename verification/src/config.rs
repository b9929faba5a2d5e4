//! The settings of a server or client process.
//!
//! The settings arrive as a JSON document and a few command-line values. This
//! module says which of them must be present and in which order they are
//! looked at. Reading the file and the command line, the two fractional
//! settings, and judging whether the text of a server's address is an
//! address are left to the caller: [`read_config`] hands out the two address
//! texts as they are written, and [`check_config`] takes the caller's verdict
//! on each of them.

use vstd::prelude::*;

verus! {

/// A JSON document or a part of one.
#[verifier::external_type_specification]
#[verifier::external_body]
pub struct ExJsonValue(serde_json::Value);

/// Why a text is not a JSON document.
#[verifier::external_type_specification]
#[verifier::external_body]
pub struct ExJsonError(serde_json::Error);

/// The value of a decimal digit, if the character is one of `0` to `9`.
pub open spec fn digit_of(c: char) -> Option<int> {
    if '0' <= c && c <= '9' {
        Some(c as int - '0' as int)
    } else {
        None
    }
}

/// The number that a string of decimal digits spells, if every character is
/// a digit. The empty string spells zero.
pub open spec fn digits_value(digits: Seq<char>) -> Option<int>
    decreases digits.len(),
{
    if digits.len() == 0 {
        Some(0)
    } else {
        match (digits_value(digits.drop_last()), digit_of(digits.last())) {
            (Some(v), Some(d)) => Some(10 * v + d),
            _ => None,
        }
    }
}

/// The number that a decimal numeral spells: an optional `+`, or `-` where
/// `signed` allows it, and then at least one digit and nothing else.
pub open spec fn decimal_value(text: Seq<char>, signed: bool) -> Option<int> {
    let negative = signed && text.len() > 0 && text[0] == '-';
    let digits = if text.len() > 0 && (text[0] == '+' || negative) {
        text.drop_first()
    } else {
        text
    };
    if digits.len() == 0 {
        None
    } else {
        match digits_value(digits) {
            Some(v) => Some(
                if negative {
                    -v
                } else {
                    v
                },
            ),
            None => None,
        }
    }
}

/// What a decimal numeral spells as an `i8`, if it spells a number from
/// -128 to 127.
pub open spec fn parsed_i8(text: Seq<char>) -> Option<i8> {
    match decimal_value(text, true) {
        Some(v) => if -128 <= v <= 127 {
            Some(v as i8)
        } else {
            None
        },
        None => None,
    }
}

/// What a decimal numeral spells as a `u64`, if it spells a number from zero
/// to the largest `u64`.
pub open spec fn parsed_u64(text: Seq<char>) -> Option<u64> {
    match decimal_value(text, false) {
        Some(v) => if v <= u64::MAX {
            Some(v as u64)
        } else {
            None
        },
        None => None,
    }
}

/// What a member of a JSON document holds, as far as the settings tell it
/// apart.
pub enum JsonMember {
    /// A whole number from zero to the largest `u64`.
    Unsigned(u64),
    /// Any other number.
    Number,
    /// A string.
    Text(Seq<char>),
    /// Anything else.
    Other,
}

/// The members of a JSON document, by their names. A value that is no
/// object has none.
pub uninterp spec fn json_members(doc: serde_json::Value) -> Map<Seq<char>, JsonMember>;

/// What the JSON parser makes of a text: the members of the document that
/// the text spells, or nothing if it spells none.
pub uninterp spec fn json_read(text: Seq<char>) -> Option<Map<Seq<char>, JsonMember>>;

/// The whole number that a document holds under `name`, if it holds one.
pub open spec fn unsigned_at(members: Map<Seq<char>, JsonMember>, name: Seq<char>) -> Option<u64> {
    if members.dom().contains(name) {
        match members[name] {
            JsonMember::Unsigned(v) => Some(v),
            _ => None,
        }
    } else {
        None
    }
}

/// The string that a document holds under `name`, if it holds one.
pub open spec fn text_at(members: Map<Seq<char>, JsonMember>, name: Seq<char>) -> Option<
    Seq<char>,
> {
    if members.dom().contains(name) {
        match members[name] {
            JsonMember::Text(t) => Some(t),
            _ => None,
        }
    } else {
        None
    }
}

/// Whether a document holds a number under `name`.
pub open spec fn number_at(members: Map<Seq<char>, JsonMember>, name: Seq<char>) -> bool {
    members.dom().contains(name) && (members[name] is Unsigned || members[name] is Number)
}

/// Calls `serde_json::from_str` for a `Value`: the document that the text
/// spells, or the parser's error. The contract names the result: whether the
/// parser accepts the text, and what members the document then has, is the
/// function [`json_read`] of the text.
#[verifier::external_body]
fn json_parse(text: &str) -> (r: Result<serde_json::Value, serde_json::Error>)
    ensures
        match r {
            Ok(doc) => json_read(text@) == Some(json_members(doc)),
            Err(_) => json_read(text@).is_none(),
        },
{
    serde_json::from_str::<serde_json::Value>(text)
}

/// Indexes a `serde_json::Value` by a member's name and hands out what
/// `as_u64` makes of the member: its number, if it is a whole number from
/// zero to the largest `u64`. A member that is missing gives nothing.
#[verifier::external_body]
fn member_u64(doc: &serde_json::Value, name: &str) -> (r: Option<u64>)
    ensures
        r == unsigned_at(json_members(*doc), name@),
{
    doc[name].as_u64()
}

/// Indexes a `serde_json::Value` by a member's name and hands out what
/// `as_str` makes of the member: its text, if it is a string. A member that
/// is missing gives nothing.
#[verifier::external_body]
fn member_text<'a>(doc: &'a serde_json::Value, name: &str) -> (r: Option<&'a str>)
    ensures
        match r {
            Some(t) => text_at(json_members(*doc), name@) == Some(t@),
            None => text_at(json_members(*doc), name@).is_none(),
        },
{
    doc[name].as_str()
}

/// Indexes a `serde_json::Value` by a member's name and hands out what
/// `is_number` says of the member. A member that is missing is no number.
#[verifier::external_body]
fn member_is_number(doc: &serde_json::Value, name: &str) -> (r: bool)
    ensures
        r == number_at(json_members(*doc), name@),
{
    doc[name].is_number()
}

/// Calls `str::parse` for an `i8`. The contract says what the standard
/// library documents: the text is accepted if it is an optional `+` or `-`
/// followed by decimal digits only, at least one, that spell a number from
/// -128 to 127, and the result is that number.
#[verifier::external_body]
fn parse_i8(text: &str) -> (r: Option<i8>)
    ensures
        r == parsed_i8(text@),
{
    text.parse::<i8>().ok()
}

/// Calls `str::parse` for a `u64`. The contract says what the standard
/// library documents: the text is accepted if it is an optional `+` followed
/// by decimal digits only, at least one, that spell a number that a `u64`
/// holds, and the result is that number.
#[verifier::external_body]
fn parse_u64(text: &str) -> (r: Option<u64>)
    ensures
        r == parsed_u64(text@),
{
    text.parse::<u64>().ok()
}

/// The settings that are whole numbers or texts.
#[derive(Debug)]
pub struct Config {
    pub data_bytes: usize,
    pub range_bits: usize,
    pub add_key_batch_size: usize,
    pub flp_batch_size: usize,
    pub unique_buckets: usize,
    /// The address of the first server, as it was written.
    pub server_0: String,
    /// The address of the second server, as it was written.
    pub server_1: String,
}

/// What is wrong with the settings: the first thing found, in the order of
/// the variants.
#[derive(Clone, Copy, Debug, PartialEq, Eq, Structural)]
pub enum ConfigError {
    Json,
    RangeBits,
    DataBytes,
    AddKeyBatchSize,
    FlpBatchSize,
    UniqueBuckets,
    Threshold,
    ZipfExponent,
    Server0,
    Server1,
}

/// What is wrong with a command-line value.
#[derive(Clone, Copy, Debug, PartialEq, Eq, Structural)]
pub enum ArgError {
    /// The value is wanted and was not given.
    Missing,
    /// The value does not spell a number of the wanted kind.
    Invalid,
}

/// What a JSON document holds under the names of the settings.
#[derive(Debug)]
pub struct RawConfig {
    pub range_bits: Option<u64>,
    pub data_bytes: Option<u64>,
    pub add_key_batch_size: Option<u64>,
    pub flp_batch_size: Option<u64>,
    pub unique_buckets: Option<u64>,
    /// Whether `threshold` is a number.
    pub has_threshold: bool,
    /// Whether `zipf_exponent` is a number.
    pub has_zipf_exponent: bool,
    pub server_0: Option<String>,
    pub server_1: Option<String>,
}

impl ConfigError {
    /// The words that report the error.
    pub fn message(&self) -> (text: &'static str)
        ensures
            text@ == match *self {
                ConfigError::Json => "Cannot parse JSON config"@,
                ConfigError::RangeBits => "Can't parse range_bits"@,
                ConfigError::DataBytes => "Can't parse data_bytes"@,
                ConfigError::AddKeyBatchSize => "Can't parse add_key_batch_size"@,
                ConfigError::FlpBatchSize => "Can't parse flp_batch_size"@,
                ConfigError::UniqueBuckets => "Can't parse unique_buckets"@,
                ConfigError::Threshold => "Can't parse threshold"@,
                ConfigError::ZipfExponent => "Can't parse zipf_exponent"@,
                ConfigError::Server0 => "Can't parse server0 addr"@,
                ConfigError::Server1 => "Can't parse server 1 addr"@,
            },
    {
        match self {
            ConfigError::Json => "Cannot parse JSON config",
            ConfigError::RangeBits => "Can't parse range_bits",
            ConfigError::DataBytes => "Can't parse data_bytes",
            ConfigError::AddKeyBatchSize => "Can't parse add_key_batch_size",
            ConfigError::FlpBatchSize => "Can't parse flp_batch_size",
            ConfigError::UniqueBuckets => "Can't parse unique_buckets",
            ConfigError::Threshold => "Can't parse threshold",
            ConfigError::ZipfExponent => "Can't parse zipf_exponent",
            ConfigError::Server0 => "Can't parse server0 addr",
            ConfigError::Server1 => "Can't parse server 1 addr",
        }
    }
}

/// The first setting that is missing or at fault, in the order in which the
/// settings are looked at. `server_0_ok` and `server_1_ok` are the caller's
/// verdict on the two address texts: whether each is an address.
pub open spec fn first_fault(raw: RawConfig, server_0_ok: bool, server_1_ok: bool) -> Option<
    ConfigError,
> {
    if raw.range_bits.is_none() {
        Some(ConfigError::RangeBits)
    } else if raw.data_bytes.is_none() {
        Some(ConfigError::DataBytes)
    } else if raw.add_key_batch_size.is_none() {
        Some(ConfigError::AddKeyBatchSize)
    } else if raw.flp_batch_size.is_none() {
        Some(ConfigError::FlpBatchSize)
    } else if raw.unique_buckets.is_none() {
        Some(ConfigError::UniqueBuckets)
    } else if !raw.has_threshold {
        Some(ConfigError::Threshold)
    } else if !raw.has_zipf_exponent {
        Some(ConfigError::ZipfExponent)
    } else if raw.server_0.is_none() || !server_0_ok {
        Some(ConfigError::Server0)
    } else if raw.server_1.is_none() || !server_1_ok {
        Some(ConfigError::Server1)
    } else {
        None
    }
}

/// Whether `config` holds exactly what `raw` holds.
pub open spec fn holds(config: Config, raw: RawConfig) -> bool {
    &&& config.range_bits == raw.range_bits.unwrap() as usize
    &&& config.data_bytes == raw.data_bytes.unwrap() as usize
    &&& config.add_key_batch_size == raw.add_key_batch_size.unwrap() as usize
    &&& config.flp_batch_size == raw.flp_batch_size.unwrap() as usize
    &&& config.unique_buckets == raw.unique_buckets.unwrap() as usize
    &&& config.server_0@ == raw.server_0.unwrap()@
    &&& config.server_1@ == raw.server_1.unwrap()@
}

/// The settings that a JSON document holds, if it holds them all and the
/// caller has found both address texts to be addresses (`server_0_ok`,
/// `server_1_ok`); else the first that is missing or at fault. A number that
/// does not fit the machine's word is cut to its low bits.
pub fn check_config(raw: RawConfig, server_0_ok: bool, server_1_ok: bool) -> (r: Result<
    Config,
    ConfigError,
>)
    ensures
        match first_fault(raw, server_0_ok, server_1_ok) {
            Some(e) => r == Err::<Config, ConfigError>(e),
            None => r.is_ok() && holds(r.unwrap(), raw),
        },
{
    let range_bits = match raw.range_bits {
        Some(v) => v,
        None => { return Err(ConfigError::RangeBits); },
    };
    let data_bytes = match raw.data_bytes {
        Some(v) => v,
        None => { return Err(ConfigError::DataBytes); },
    };
    let add_key_batch_size = match raw.add_key_batch_size {
        Some(v) => v,
        None => { return Err(ConfigError::AddKeyBatchSize); },
    };
    let flp_batch_size = match raw.flp_batch_size {
        Some(v) => v,
        None => { return Err(ConfigError::FlpBatchSize); },
    };
    let unique_buckets = match raw.unique_buckets {
        Some(v) => v,
        None => { return Err(ConfigError::UniqueBuckets); },
    };
    if !raw.has_threshold {
        return Err(ConfigError::Threshold);
    }
    if !raw.has_zipf_exponent {
        return Err(ConfigError::ZipfExponent);
    }
    let server_0 = match raw.server_0 {
        Some(s) => s,
        None => { return Err(ConfigError::Server0); },
    };
    if !server_0_ok {
        return Err(ConfigError::Server0);
    }
    let server_1 = match raw.server_1 {
        Some(s) => s,
        None => { return Err(ConfigError::Server1); },
    };
    if !server_1_ok {
        return Err(ConfigError::Server1);
    }
    Ok(
        Config {
            data_bytes: #[verifier::truncate]
            (data_bytes as usize),
            range_bits: #[verifier::truncate]
            (range_bits as usize),
            add_key_batch_size: #[verifier::truncate]
            (add_key_batch_size as usize),
            flp_batch_size: #[verifier::truncate]
            (flp_batch_size as usize),
            unique_buckets: #[verifier::truncate]
            (unique_buckets as usize),
            server_0,
            server_1,
        },
    )
}

/// The characters of a text that may be missing.
pub open spec fn text_of(text: Option<String>) -> Option<Seq<char>> {
    match text {
        Some(t) => Some(t@),
        None => None,
    }
}

/// Whether `raw` holds exactly what a document with the members `members`
/// holds under the names of the settings.
pub open spec fn reads(raw: RawConfig, members: Map<Seq<char>, JsonMember>) -> bool {
    &&& raw.range_bits == unsigned_at(members, "range_bits"@)
    &&& raw.data_bytes == unsigned_at(members, "data_bytes"@)
    &&& raw.add_key_batch_size == unsigned_at(members, "add_key_batch_size"@)
    &&& raw.flp_batch_size == unsigned_at(members, "flp_batch_size"@)
    &&& raw.unique_buckets == unsigned_at(members, "unique_buckets"@)
    &&& raw.has_threshold == number_at(members, "threshold"@)
    &&& raw.has_zipf_exponent == number_at(members, "zipf_exponent"@)
    &&& text_of(raw.server_0) == text_at(members, "server_0"@)
    &&& text_of(raw.server_1) == text_at(members, "server_1"@)
}

/// The text that a JSON document holds under `name`, as a string of its
/// own, if it holds a string there.
fn owned_text(doc: &serde_json::Value, name: &str) -> (r: Option<String>)
    ensures
        text_of(r) == text_at(json_members(*doc), name@),
{
    match member_text(doc, name) {
        Some(s) => Some(s.to_owned()),
        None => None,
    }
}

/// What a JSON document holds under the names of the settings: the five
/// whole numbers, whether the two fractions are numbers, and the two
/// addresses as they are written.
fn read_fields(doc: &serde_json::Value) -> (raw: RawConfig)
    ensures
        reads(raw, json_members(*doc)),
{
    RawConfig {
        range_bits: member_u64(doc, "range_bits"),
        data_bytes: member_u64(doc, "data_bytes"),
        add_key_batch_size: member_u64(doc, "add_key_batch_size"),
        flp_batch_size: member_u64(doc, "flp_batch_size"),
        unique_buckets: member_u64(doc, "unique_buckets"),
        has_threshold: member_is_number(doc, "threshold"),
        has_zipf_exponent: member_is_number(doc, "zipf_exponent"),
        server_0: owned_text(doc, "server_0"),
        server_1: owned_text(doc, "server_1"),
    }
}

/// What the text of a JSON document holds under the names of the settings.
///
/// The text is handed to the JSON parser as it is. If the parser refuses it,
/// the result is [`ConfigError::Json`], and no other error comes from here;
/// if it accepts it, the result holds what the document holds under the
/// names of the settings. The two address texts are handed out as they are
/// written: whether they are addresses is for the caller to judge, before
/// [`check_config`].
pub fn read_config(text: &str) -> (r: Result<RawConfig, ConfigError>)
    ensures
        match json_read(text@) {
            Some(members) => r.is_ok() && reads(r.unwrap(), members),
            None => r == Err::<RawConfig, ConfigError>(ConfigError::Json),
        },
{
    match json_parse(text) {
        Err(_) => Err(ConfigError::Json),
        Ok(doc) => Ok(read_fields(&doc)),
    }
}

/// The identifier of the server that the command line names: `-1` if none is
/// wanted, else the number that the value spells.
pub fn server_id_of(wanted: bool, value: Option<&str>) -> (r: Result<i8, ArgError>)
    ensures
        r == (if !wanted {
            Ok::<i8, ArgError>(-1i8)
        } else {
            match value {
                None => Err(ArgError::Missing),
                Some(text) => match parsed_i8(text@) {
                    Some(id) => Ok(id),
                    None => Err(ArgError::Invalid),
                },
            }
        }),
{
    if !wanted {
        return Ok(-1);
    }
    match value {
        None => Err(ArgError::Missing),
        Some(text) => match parse_i8(text) {
            Some(id) => Ok(id),
            None => Err(ArgError::Invalid),
        },
    }
}

/// The number of client requests that the command line names: zero if none
/// is wanted, else the number that the value spells, if the machine's word
/// holds it.
pub fn num_clients_of(wanted: bool, value: Option<&str>) -> (r: Result<usize, ArgError>)
    ensures
        r == (if !wanted {
            Ok::<usize, ArgError>(0usize)
        } else {
            match value {
                None => Err(ArgError::Missing),
                Some(text) => match parsed_u64(text@) {
                    Some(n) => if n <= usize::MAX {
                        Ok(n as usize)
                    } else {
                        Err(ArgError::Invalid)
                    },
                    None => Err(ArgError::Invalid),
                },
            }
        }),
{
    if !wanted {
        return Ok(0);
    }
    match value {
        None => Err(ArgError::Missing),
        Some(text) => match parse_u64(text) {
            Some(n) => if n <= usize::MAX as u64 {
                Ok(n as usize)
            } else {
                Err(ArgError::Invalid)
            },
            None => Err(ArgError::Invalid),
        },
    }
}

} // verus!
