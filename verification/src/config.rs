//! The repository's configuration: key/value sections, kept in an
//! `ini::Ini` and reached through a handful of trusted calls.

use vstd::prelude::*;
use ini::{Ini, ParseError};

verus! {

#[verifier::external_type_specification]
#[verifier::external_body]
pub struct ExIni(Ini);

#[verifier::external_type_specification]
#[verifier::external_body]
pub struct ExParseError(ParseError);

/// Values by section name and key.
pub type Entries = Map<(Seq<char>, Seq<char>), Seq<char>>;

/// What a lookup finds in a configuration: for each named section and key
/// that has a value there, the value that `get_from` returns.
pub uninterp spec fn ini_entries(conf: Ini) -> Entries;

/// The entries of the configuration that a text parses to; `None` where the
/// parser rejects the text.
pub uninterp spec fn ini_parsed(text: Seq<char>) -> Option<Entries>;

/// `Ini::new`. Trusted: a new configuration has no named section, so no
/// entry.
#[verifier::external_body]
pub(crate) fn ini_new() -> (conf: Ini)
    ensures
        ini_entries(conf) == Entries::empty(),
{
    Ini::new()
}

/// `Ini::set_to` with a named section. Trusted: it replaces the value that
/// lookups find for this section and key, and leaves every other entry.
#[verifier::external_body]
pub(crate) fn ini_set(conf: &mut Ini, section: &str, key: &str, value: &str)
    ensures
        ini_entries(*final(conf)) == ini_entries(*old(conf)).insert((section@, key@), value@),
{
    conf.set_to(Some(section), key.to_string(), value.to_string());
}

/// `Ini::get_from` with a named section, the value copied. Trusted: it
/// returns the entry for this section and key, `None` where there is none.
#[verifier::external_body]
pub(crate) fn ini_get(conf: &Ini, section: &str, key: &str) -> (r: Option<String>)
    ensures
        match r {
            Some(v) => ini_entries(*conf).contains_key((section@, key@)) && ini_entries(
                *conf,
            )[(section@, key@)] == v@,
            None => !ini_entries(*conf).contains_key((section@, key@)),
        },
{
    conf.get_from(Some(section), key).map(|v| v.to_string())
}

/// `Ini::load_from_str`. Trusted: whether the text parses, and the entries of
/// the result, depend on the text alone.
#[verifier::external_body]
pub(crate) fn ini_parse(text: &str) -> (r: Result<Ini, ParseError>)
    ensures
        match r {
            Ok(conf) => ini_parsed(text@) == Some(ini_entries(conf)),
            Err(_) => ini_parsed(text@) is None,
        },
{
    Ini::load_from_str(text)
}

pub open spec fn core_key(key: Seq<char>) -> (Seq<char>, Seq<char>) {
    ("core"@, key)
}

/// The entries of the configuration of a new repository: format version 0,
/// file modes not tracked, not bare.
pub open spec fn default_entries() -> Entries {
    Entries::empty().insert(
        core_key("repositoryformatversion"@),
        "0"@,
    ).insert(core_key("filemode"@), "false"@).insert(core_key("bare"@), "false"@)
}

/// The format version that the entries declare: the value of
/// `repositoryformatversion` in the section `core`, if there is one.
pub open spec fn declared_version(entries: Entries) -> Option<Seq<char>> {
    if entries.contains_key(core_key("repositoryformatversion"@)) {
        Some(entries[core_key("repositoryformatversion"@)])
    } else {
        None
    }
}

/// Whether the entries declare the one format version that is supported.
pub open spec fn version_supported(entries: Entries) -> bool {
    declared_version(entries) == Some("0"@)
}

/// The configuration written into a new repository.
pub fn repo_default_config() -> (conf: Ini)
    ensures
        ini_entries(conf) == default_entries(),
        version_supported(ini_entries(conf)),
{
    let mut conf = ini_new();
    ini_set(&mut conf, "core", "repositoryformatversion", "0");
    ini_set(&mut conf, "core", "filemode", "false");
    ini_set(&mut conf, "core", "bare", "false");
    proof {
        reveal_strlit("repositoryformatversion");
        reveal_strlit("filemode");
        reveal_strlit("bare");
        assert("repositoryformatversion"@.len() != "filemode"@.len());
        assert("repositoryformatversion"@.len() != "bare"@.len());
    }
    conf
}

/// The format version that a configuration declares.
pub fn read_version(conf: &Ini) -> (r: Option<String>)
    ensures
        match r {
            Some(v) => declared_version(ini_entries(*conf)) == Some(v@),
            None => declared_version(ini_entries(*conf)) is None,
        },
{
    ini_get(conf, "core", "repositoryformatversion")
}

/// Whether `version` is the one format version that is supported.
pub fn is_supported(version: &String) -> (r: bool)
    ensures
        r == (version@ == "0"@),
{
    let zero = "0".to_owned();
    *version == zero
}

} // verus!
