//! What the library takes from other crates, with the contracts it relies on.
//!
//! Nothing in this file is proved: each contract says what the named function of the other
//! crate does, and the rest of the library is proved from these statements.
use vstd::prelude::*;
use crate::text::{decimal, text_view};

verus! {

// ---------------------------------------------------------------------------
// serde_json: reading a JSON document
// ---------------------------------------------------------------------------

/// A JSON value of `serde_json`, a container whose contents are given by the names below.
#[verifier::external_type_specification]
#[verifier::external_body]
pub struct ExJsonValue(serde_json::Value);

/// The reason why `serde_json` could not read a text.
#[verifier::external_type_specification]
#[verifier::external_body]
pub struct ExJsonError(serde_json::Error);

/// The JSON value that a text denotes, if it is a JSON document that `serde_json` reads.
pub uninterp spec fn json_value(text: Seq<char>) -> Option<serde_json::Value>;

/// The member of a JSON object under a key; `None` for a missing key and for other values.
pub uninterp spec fn json_member(value: serde_json::Value, key: Seq<char>) -> Option<
    serde_json::Value,
>;

/// The elements of a JSON array; `None` for other values.
pub uninterp spec fn json_elements(value: serde_json::Value) -> Option<Seq<serde_json::Value>>;

/// The text of a JSON string; `None` for other values.
pub uninterp spec fn json_text(value: serde_json::Value) -> Option<Seq<char>>;

/// The value of a JSON number that is a 64-bit signed integer; `None` for other values.
pub uninterp spec fn json_int(value: serde_json::Value) -> Option<i64>;

/// `serde_json::from_str` at the type `serde_json::Value`: what it reads depends on the text
/// alone.
#[verifier::external_body]
pub(crate) fn json_from_str(text: &str) -> (r: Result<serde_json::Value, serde_json::Error>)
    ensures
        match r {
            Ok(value) => json_value(text@) == Some(value),
            Err(_) => json_value(text@) is None,
        },
{
    serde_json::from_str(text)
}

/// `serde_json::Value::get` with a text index: the member of an object.
#[verifier::external_body]
pub(crate) fn json_get<'a>(value: &'a serde_json::Value, key: &str) -> (r: Option<
    &'a serde_json::Value,
>)
    ensures
        match r {
            Some(member) => json_member(*value, key@) == Some(*member),
            None => json_member(*value, key@) is None,
        },
{
    value.get(key)
}

/// `serde_json::Value::as_array`: the elements of an array.
pub assume_specification[ serde_json::Value::as_array ](value: &serde_json::Value) -> (r: Option<
    &Vec<serde_json::Value>,
>)
    ensures
        match r {
            Some(elements) => json_elements(*value) == Some(elements@),
            None => json_elements(*value) is None,
        },
;

/// `serde_json::Value::as_str`: the text of a string.
pub assume_specification[ serde_json::Value::as_str ](value: &serde_json::Value) -> (r: Option<
    &str,
>)
    ensures
        match r {
            Some(text) => json_text(*value) == Some(text@),
            None => json_text(*value) is None,
        },
;

/// `serde_json::Value::as_i64`: the value of an integer.
pub assume_specification[ serde_json::Value::as_i64 ](value: &serde_json::Value) -> (r: Option<i64>)
    ensures
        r == json_int(*value),
;

/// A hexadecimal digit, in lower case.
pub open spec fn hex_digit(n: int) -> char {
    if n < 10 {
        ((48 + n) as u8) as char
    } else {
        ((87 + n) as u8) as char
    }
}

/// A character inside a JSON string literal: a quote, a backslash and control characters are
/// escaped.
pub open spec fn json_escaped(c: char) -> Seq<char> {
    if c == '"' || c == '\\' {
        seq!['\\', c]
    } else if c == '\u{8}' {
        seq!['\\', 'b']
    } else if c == '\u{9}' {
        seq!['\\', 't']
    } else if c == '\u{a}' {
        seq!['\\', 'n']
    } else if c == '\u{c}' {
        seq!['\\', 'f']
    } else if c == '\u{d}' {
        seq!['\\', 'r']
    } else if c <= '\u{1f}' {
        seq!['\\', 'u', '0', '0', hex_digit(c as int / 16), hex_digit(c as int % 16)]
    } else {
        seq![c]
    }
}

/// The characters of a text inside a JSON string literal.
pub open spec fn json_contents(text: Seq<char>) -> Seq<char>
    decreases text.len(),
{
    if text.len() == 0 {
        Seq::empty()
    } else {
        json_contents(text.drop_last()) + json_escaped(text.last())
    }
}

/// The JSON string literal that denotes a text.
pub open spec fn json_quoted(text: Seq<char>) -> Seq<char> {
    seq!['"'] + json_contents(text) + seq!['"']
}

/// `serde_json::to_string` of a text: its JSON string literal.  Writing a text to memory
/// cannot fail.
#[verifier::external_body]
pub(crate) fn json_quote(text: &str) -> (r: String)
    ensures
        r@ == json_quoted(text@),
{
    serde_json::to_string(text).unwrap_or_default()
}

// ---------------------------------------------------------------------------
// glob: exclude patterns
// ---------------------------------------------------------------------------

// `glob` takes the platform's path separators for the ends of path segments: `/`, and on Windows
// also the backslash.  What the names below say of a text with a backslash holds on one platform.
/// Whether a text is a pattern that `glob` accepts.
pub uninterp spec fn glob_valid(pattern: Seq<char>) -> bool;

/// Whether a text matches a glob pattern under the default options; nothing matches a text
/// that is no pattern.
pub uninterp spec fn glob_match(pattern: Seq<char>, text: Seq<char>) -> bool;

/// `glob::Pattern::new`: whether it accepts the pattern.
#[verifier::external_body]
pub(crate) fn glob_accepts(pattern: &str) -> (r: bool)
    ensures
        r == glob_valid(pattern@),
{
    glob::Pattern::new(pattern).is_ok()
}

/// `glob::Pattern::matches`: whether the pattern matches the whole text.
#[verifier::external_body]
pub(crate) fn glob_matches(pattern: &str, text: &str) -> (r: bool)
    ensures
        r == glob_match(pattern@, text@),
        !glob_valid(pattern@) ==> !r,
{
    glob::Pattern::new(pattern).is_ok_and(|p| p.matches(text))
}

// ---------------------------------------------------------------------------
// reqwest::Url: addresses
// ---------------------------------------------------------------------------

/// Why a text is no absolute URL; `None` for a URL.
pub uninterp spec fn url_error(text: Seq<char>) -> Option<Seq<char>>;

/// The URL that a relative address denotes with respect to a base; `None` if the base is no
/// URL or the address cannot be resolved against it.
pub uninterp spec fn url_joined(base: Seq<char>, address: Seq<char>) -> Option<Seq<char>>;

/// `reqwest::Url::parse`: the message of its error, if it fails.
#[verifier::external_body]
pub(crate) fn url_parse_error(text: &str) -> (r: Option<String>)
    ensures
        match r {
            Some(message) => url_error(text@) == Some(message@),
            None => url_error(text@) is None,
        },
{
    reqwest::Url::parse(text).err().map(|e| e.to_string())
}

/// `reqwest::Url::join` on the parsed base, as text.
#[verifier::external_body]
pub(crate) fn url_join(base: &str, address: &str) -> (r: Option<String>)
    ensures
        match r {
            Some(url) => url_joined(base@, address@) == Some(url@),
            None => url_joined(base@, address@) is None,
        },
{
    reqwest::Url::parse(base).ok()?.join(address).ok().map(|url| url.to_string())
}

/// The text of an HTTP status, such as `404 Not Found`; `None` for a number that is no status.
pub uninterp spec fn status_phrase(status: u16) -> Option<Seq<char>>;

/// `reqwest::StatusCode::from_u16`, as text.
#[verifier::external_body]
pub(crate) fn status_text(status: u16) -> (r: Option<String>)
    ensures
        match r {
            Some(text) => status_phrase(status) == Some(text@),
            None => status_phrase(status) is None,
        },
{
    reqwest::StatusCode::from_u16(status).ok().map(|s| s.to_string())
}

// ---------------------------------------------------------------------------
// chrono: dates
// ---------------------------------------------------------------------------

/// The UTC date and minute of a Unix time in the form `2023-04-13 00:12`; `None` outside the
/// years that `chrono` represents.
pub uninterp spec fn minute_text(seconds: i64) -> Option<Seq<char>>;

/// The Unix time of a UTC date and minute in that form; `None` for other texts.
pub uninterp spec fn minute_seconds(text: Seq<char>) -> Option<i64>;

/// The Unix time that an RFC 2822 date denotes, as seconds and nanoseconds.
pub uninterp spec fn rfc2822_time(text: Seq<char>) -> Option<(i64, u32)>;

/// `chrono::DateTime::from_timestamp` followed by `format("%Y-%m-%d %H:%M")`.
#[verifier::external_body]
pub(crate) fn format_minute(seconds: i64) -> (r: Option<String>)
    ensures
        match r {
            Some(text) => minute_text(seconds) == Some(text@),
            None => minute_text(seconds) is None,
        },
{
    chrono::DateTime::from_timestamp(seconds, 0).map(|t| t.format("%Y-%m-%d %H:%M").to_string())
}

/// `chrono::NaiveDateTime::parse_from_str` with the format `%Y-%m-%d %H:%M`, taken as UTC.
///
/// Reading what `format_minute` wrote gives back the start of that minute, for the years 1970
/// to 9999, which are written with four digits.
#[verifier::external_body]
pub(crate) fn parse_minute(text: &str) -> (r: Option<i64>)
    ensures
        r == minute_seconds(text@),
        forall|seconds: i64|
            0 <= seconds < 253402300800 && #[trigger] minute_text(seconds) == Some(text@) ==> r
                == Some((seconds - seconds % 60) as i64),
{
    chrono::NaiveDateTime::parse_from_str(text, "%Y-%m-%d %H:%M").ok().map(
        |t| t.and_utc().timestamp(),
    )
}

/// `chrono::DateTime::parse_from_rfc2822`, as Unix seconds and nanoseconds.
#[verifier::external_body]
pub(crate) fn parse_rfc2822(text: &str) -> (r: Option<(i64, u32)>)
    ensures
        r == rfc2822_time(text@),
{
    chrono::DateTime::parse_from_rfc2822(text).ok().map(
        |t| (t.timestamp(), t.timestamp_subsec_nanos()),
    )
}

/// The time from one point in time to a later one, each as Unix seconds and nanoseconds; `None`
/// if the second lies before the first, or if one of them is no time of `chrono`.
pub uninterp spec fn time_between(from: (i64, u32), to: (i64, u32)) -> Option<(u64, u32)>;

/// Whether a time lies in the years 1970 to 9999 and in no leap second.
pub open spec fn is_ordinary(time: (i64, u32)) -> bool {
    0 <= time.0 < 253402300800 && time.1 < 1_000_000_000
}

/// Nanoseconds since the start of 1970.
pub open spec fn nanos_of(time: (i64, u32)) -> int {
    time.0 * 1_000_000_000 + time.1
}

/// The difference of two `chrono::DateTime`s, as `TimeDelta::to_std` gives it in seconds and
/// nanoseconds.
///
/// Between ordinary times it is the difference of their nanoseconds.  How `chrono` counts leap
/// seconds is left unsaid.
#[verifier::external_body]
pub(crate) fn time_from_to(from: (i64, u32), to: (i64, u32)) -> (r: Option<(u64, u32)>)
    ensures
        r == time_between(from, to),
        is_ordinary(from) && is_ordinary(to) ==> match r {
            Some((secs, nanos)) => nanos < 1_000_000_000 && secs * 1_000_000_000 + nanos
                == nanos_of(to) - nanos_of(from),
            None => nanos_of(to) < nanos_of(from),
        },
{
    let from = chrono::DateTime::from_timestamp(from.0, from.1)?;
    let to = chrono::DateTime::from_timestamp(to.0, to.1)?;
    (to - from).to_std().ok().map(|d| (d.as_secs(), d.subsec_nanos()))
}

/// `chrono::Utc::now`, as Unix seconds and nanoseconds.  The clock is after the start of 1970
/// and shows no leap seconds; nothing else is claimed of it.
#[verifier::external_body]
pub(crate) fn utc_now() -> (r: (i64, u32))
    ensures
        r.0 >= 0,
        r.1 < 1_000_000_000,
{
    let now = chrono::Utc::now();
    (now.timestamp(), now.timestamp_subsec_nanos())
}

// ---------------------------------------------------------------------------
// bytesize: sizes for people
// ---------------------------------------------------------------------------

/// A number of bytes as people read it, such as `12.3 MB`.
pub uninterp spec fn byte_size(bytes: u64) -> Seq<char>;

/// The text of a `bytesize::ByteSize`: a number under a thousand is written out, a larger one
/// is given in a larger unit, rounded to one decimal place.
#[verifier::external_body]
pub(crate) fn byte_size_text(bytes: u64) -> (r: String)
    ensures
        r@ == byte_size(bytes),
        bytes < 1000 ==> r@ == decimal(bytes as nat) + " B"@,
{
    bytesize::ByteSize(bytes).to_string()
}

// ---------------------------------------------------------------------------
// std: values for the log
// ---------------------------------------------------------------------------

/// An optional text as a programmer reads it, such as `Some("Index")`.
pub uninterp spec fn debug_text(text: Option<Seq<char>>) -> Seq<char>;

/// Whether a text consists of ASCII letters, digits and spaces.
pub open spec fn is_plain(text: Seq<char>) -> bool {
    forall|i: int|
        0 <= i < text.len() ==> {
            let c = #[trigger] text[i];
            'a' <= c <= 'z' || 'A' <= c <= 'Z' || '0' <= c <= '9' || c == ' '
        }
}

/// The `Debug` form of an `Option<String>`: a text stands in quotes.  How other characters than
/// plain ones are escaped is left unsaid.
#[verifier::external_body]
pub(crate) fn debug_form(text: &Option<String>) -> (r: String)
    ensures
        r@ == debug_text(text_view(*text)),
        text is None ==> r@ == "None"@,
        text matches Some(t) ==> is_plain(t@) ==> r@ == "Some(\""@ + t@ + "\")"@,
{
    format!("{:?}", text)
}

// ---------------------------------------------------------------------------
// sha2: checksums
// ---------------------------------------------------------------------------

/// A SHA-256 computation in progress.
#[verifier::external_body]
pub struct Checksum {
    hasher: sha2::Sha256,
}

/// The bytes that a checksum has taken in so far.
pub uninterp spec fn checksum_input(checksum: Checksum) -> Seq<u8>;

/// The SHA-256 digest of a byte sequence.
pub uninterp spec fn sha256(bytes: Seq<u8>) -> Seq<u8>;

/// `sha2::Sha256::new`: nothing has been taken in.
#[verifier::external_body]
pub(crate) fn checksum_new() -> (r: Checksum)
    ensures
        checksum_input(r) == Seq::<u8>::empty(),
{
    Checksum { hasher: sha2::Digest::new() }
}

/// `sha2::Sha256::update`: takes in more bytes, after those it has.
#[verifier::external_body]
pub(crate) fn checksum_update(checksum: &mut Checksum, bytes: &[u8])
    ensures
        checksum_input(*final(checksum)) == checksum_input(*old(checksum)) + bytes@,
{
    sha2::Digest::update(&mut checksum.hasher, bytes)
}

/// `sha2::Sha256::finalize`: the 32 bytes of the digest of what was taken in.
#[verifier::external_body]
pub(crate) fn checksum_digest(checksum: Checksum) -> (r: Vec<u8>)
    ensures
        r@ == sha256(checksum_input(checksum)),
        r@.len() == 32,
{
    sha2::Digest::finalize(checksum.hasher).to_vec()
}

// ---------------------------------------------------------------------------
// directories: the platform's places
// ---------------------------------------------------------------------------

/// The configuration directory of `directories::ProjectDirs`, which is asked for this program's
/// only.  It depends on the environment; nothing is claimed of it.  A path that is no UTF-8 text
/// comes with replacement characters.
#[verifier::external_body]
pub(crate) fn project_config_dir(qualifier: &str, organization: &str, application: &str) -> (r:
    Option<String>)
    requires
        qualifier@ == "com"@,
        organization@ == "elscione"@,
        application@ == "elscione-sync"@,
{
    directories::ProjectDirs::from(qualifier, organization, application).map(
        |p| p.config_dir().to_string_lossy().into_owned(),
    )
}

/// The data directory of `directories::ProjectDirs`, which is asked for this program's only.  It
/// depends on the environment; nothing is claimed of it.  A path that is no UTF-8 text comes with
/// replacement characters.
#[verifier::external_body]
pub(crate) fn project_data_dir(qualifier: &str, organization: &str, application: &str) -> (r:
    Option<String>)
    requires
        qualifier@ == "com"@,
        organization@ == "elscione"@,
        application@ == "elscione-sync"@,
{
    directories::ProjectDirs::from(qualifier, organization, application).map(
        |p| p.data_dir().to_string_lossy().into_owned(),
    )
}

/// The home directory of `directories::UserDirs`.  It depends on the environment; nothing is
/// claimed of it.  A path that is no UTF-8 text comes with replacement characters.
#[verifier::external_body]
pub(crate) fn user_home_dir() -> (r: Option<String>) {
    directories::UserDirs::new().map(|d| d.home_dir().to_string_lossy().into_owned())
}

} // verus!
