//! Errors that abort a build.

use vstd::prelude::*;

verus! {

/// Everything that can stop the pipeline while a document is processed.
#[derive(Debug, Clone, PartialEq, Eq)]
pub enum BuildError {
    /// The metadata block at the head of a content file failed to decode,
    /// or the file has no recognizable metadata block and body.
    MalformedMetadata,
    /// A template referenced a placeholder the engine does not recognize;
    /// the offending token is carried verbatim.
    UnknownPlaceholder(String),
    /// Substitution on one line kept producing new placeholders and never
    /// settled within the engine's step budget.
    SubstitutionLimit,
}

impl BuildError {
    /// A human-readable description, worded as the build tool reports it.
    pub fn message(&self) -> (r: String)
        ensures
            (match self {
                BuildError::MalformedMetadata => r@ == "[ ERROR ] Frontmatter is missing"@,
                BuildError::UnknownPlaceholder(k) => r@ == "Invalid key, "@ + k@
                    + " in template"@,
                BuildError::SubstitutionLimit => r@
                    == "[ ERROR ] Template substitution did not settle"@,
            }),
    {
        match self {
            BuildError::MalformedMetadata => String::from_str("[ ERROR ] Frontmatter is missing"),
            BuildError::UnknownPlaceholder(k) => {
                let mut m = String::from_str("Invalid key, ");
                m.append(k.as_str());
                m.append(" in template");
                m
            },
            BuildError::SubstitutionLimit => String::from_str(
                "[ ERROR ] Template substitution did not settle",
            ),
        }
    }
}

} // verus!
