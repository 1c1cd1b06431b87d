pub mod aggregate;
pub mod catalog;
pub mod diagnostics;
pub mod swiftlint;
pub mod text;
pub mod yaml_doc;

use vstd::prelude::*;

verus! {

/// The failures the library itself can detect.  Failures of the linter
/// subprocess or of the filesystem happen outside the library.
#[derive(Clone, Copy, Debug, PartialEq, Eq, Structural)]
pub enum Error {
    /// The rule catalog table is malformed: a required column is missing
    /// from the header, or a data row has fewer fields than the header.
    CatalogParse,
    /// A diagnostic line does not match the expected grammar.
    DiagnosticParse,
    /// A pre-existing configuration document is not a single-document
    /// mapping with string keys, so it cannot be merged.
    ConfigDocument,
}

/// User preferences, loaded once at startup from a well-known per-user
/// configuration path (the loading itself happens outside the library).
pub struct Config {
    /// Rule identifiers that are always commented out in generated
    /// configurations, regardless of their violation count.
    pub always_disabled_rules: Option<Vec<String>>,
}

impl Config {
    /// The default preferences: no rule is unconditionally disabled.
    pub fn new() -> (c: Config)
        ensures
            c.always_disabled_rules is None,
    {
        Config { always_disabled_rules: None }
    }
}

} // verus!
