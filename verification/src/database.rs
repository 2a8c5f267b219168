//! The settings of the database pool: how they are called in the
//! environment, and what they mean once they were read.

use vstd::prelude::*;

verus! {

/// The size of the pool when none is set, or when what is set is no size.
pub const DEFAULT_POOL_SIZE: u32 = 5;

/// Why the database cannot be reached.
#[derive(Debug, PartialEq, Eq)]
pub enum Error {
    /// The variable named here should hold the address of the database and
    /// is not set.
    DatabaseUrlNotSet(String),
}

impl Error {
    /// The text of this error, as a sequence of characters.
    pub open spec fn wording(&self) -> Seq<char> {
        match self {
            Error::DatabaseUrlNotSet(variable) => "`"@ + variable@ + "` is not set"@,
        }
    }

    /// The text that describes this error to a reader.
    pub fn message(&self) -> (text: String)
        ensures
            text@ == self.wording(),
    {
        match self {
            Error::DatabaseUrlNotSet(variable) => String::from_str("`").concat(
                variable.as_str(),
            ).concat("` is not set"),
        }
    }
}

/// The name of a setting: `name` itself, or with a prefix `prefix_name`.
pub open spec fn prefixed(var_prefix: Option<&str>, name: Seq<char>) -> Seq<char> {
    match var_prefix {
        Some(prefix) => prefix@ + "_"@ + name,
        None => name,
    }
}

/// The number that `str::parse::<u32>` reads from a text, if it reads one.
pub uninterp spec fn parsed_u32(text: Seq<char>) -> Option<u32>;

/// Calls `str::parse::<u32>` on `text`, and drops the reason when the text
/// is not a number. The result depends on the text alone; nothing more is
/// claimed of it.
#[verifier::external_body]
fn parse_u32(text: &str) -> (parsed: Option<u32>)
    ensures
        parsed == parsed_u32(text@),
{
    text.parse::<u32>().ok()
}

/// The size of the pool for what a setting was read as: the number, or the
/// default where it was no number.
pub open spec fn pool_size_or_default(parsed: Option<u32>) -> u32 {
    match parsed {
        Some(size) => size,
        None => DEFAULT_POOL_SIZE,
    }
}

/// The name of `name` under the prefix, if there is one.
fn setting_name(var_prefix: Option<&str>, name: &str) -> (variable: String)
    ensures
        variable@ == prefixed(var_prefix, name@),
{
    match var_prefix {
        Some(prefix) => String::from_str(prefix).concat("_").concat(name),
        None => String::from_str(name),
    }
}

/// The name of the variable that holds the size of the pool: `POOL_SIZE`, or
/// with a prefix `PREFIX_POOL_SIZE`.
pub fn pool_size_var(var_prefix: Option<&str>) -> (variable: String)
    ensures
        variable@ == prefixed(var_prefix, "POOL_SIZE"@),
{
    setting_name(var_prefix, "POOL_SIZE")
}

/// The name of the variable that holds the address of the database:
/// `DATABASE_URL`, or with a prefix `PREFIX_DATABASE_URL`.
pub fn database_url_var(var_prefix: Option<&str>) -> (variable: String)
    ensures
        variable@ == prefixed(var_prefix, "DATABASE_URL"@),
{
    setting_name(var_prefix, "DATABASE_URL")
}

/// The size of the pool for a setting that was already read as a number, or
/// found to be none.
pub fn pool_size_for(parsed: Option<u32>) -> (size: u32)
    ensures
        size == pool_size_or_default(parsed),
{
    match parsed {
        Some(size) => size,
        None => DEFAULT_POOL_SIZE,
    }
}

/// The size of the pool that a setting stands for. A variable that is not
/// set, or that holds an empty text, stands for the default. Any other text
/// is read as a number, and stands for the default where it is none.
pub open spec fn pool_size_of(setting: Option<&str>) -> u32 {
    match setting {
        None => DEFAULT_POOL_SIZE,
        Some(text) => if text@.len() == 0 {
            DEFAULT_POOL_SIZE
        } else {
            pool_size_or_default(parsed_u32(text@))
        },
    }
}

/// The size of the pool for what the environment holds under the name of
/// that setting. Without a setting, and with an empty one, this is the
/// default, and nothing is read; any other text is read as a number.
pub fn pool_size(setting: Option<&str>) -> (size: u32)
    ensures
        size == pool_size_of(setting),
        setting is None ==> size == DEFAULT_POOL_SIZE,
        setting is Some && setting->0@.len() == 0 ==> size == DEFAULT_POOL_SIZE,
{
    match setting {
        None => DEFAULT_POOL_SIZE,
        Some(text) => {
            if text.is_empty() {
                DEFAULT_POOL_SIZE
            } else {
                pool_size_for(parse_u32(text))
            }
        },
    }
}

/// The address of the database, as the environment holds it under
/// `variable`; where it holds nothing, the error names the variable.
pub fn database_url(variable: String, setting: Option<String>) -> (url: Result<String, Error>)
    ensures
        url == (match setting {
            Some(address) => Ok(address),
            None => Err(Error::DatabaseUrlNotSet(variable)),
        }),
{
    match setting {
        Some(address) => Ok(address),
        None => Err(Error::DatabaseUrlNotSet(variable)),
    }
}

} // verus!
