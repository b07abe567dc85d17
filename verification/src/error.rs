//! What can go wrong between a schema text and a password.

use vstd::prelude::*;

verus! {

/// Why a schema text was refused.
#[derive(Clone, Copy, Debug, PartialEq, Eq, Structural)]
pub enum SyntaxErrorKind {
    /// A character stands where the grammar has no use for it.
    UnexpectedCharacter,
    /// A `[` has no `]` after it.
    UnterminatedClass,
    /// A `(` has no `)` after it.
    UnmatchedGroup,
    /// What follows a `{` is not a count, or two counts with a comma between
    /// them, and a `}`.
    MalformedQuantifier,
    /// The lower count of a quantifier is above its upper count.
    QuantifierRange,
    /// A branch of an alternation is empty.
    EmptyBranch,
}

/// A schema text was refused: where, counted in characters from zero, and why.
#[derive(Clone, Copy, Debug, PartialEq, Eq, Structural)]
pub struct SyntaxError {
    pub position: usize,
    pub kind: SyntaxErrorKind,
}

/// Why no password was produced.
#[derive(Clone, Copy, Debug, PartialEq, Eq, Structural)]
pub enum Failure {
    /// The schema text is malformed.
    SchemaSyntax(SyntaxError),
    /// A count on the way to the size of the schema needs more than 256 bits.
    SchemaTooLarge,
    /// The schema produces no string at all.
    EmptyLanguage,
    /// An index is not below the size of the schema it was to be decoded with.
    IndexOutOfRange,
    /// The confirmation differs from the secret.
    SecretMismatch,
    /// The key derivation refused the secret or the salt.
    KeyDerivation,
}

} // verus!
