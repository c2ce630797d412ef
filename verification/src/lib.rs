pub mod assembler;
pub mod chunk;
pub mod disasm;
pub mod escape;
pub mod pend;
pub mod text;
pub mod pool;
pub mod stcm2;
pub mod words;

use vstd::prelude::*;

verus! {

/// The fatal error taxonomy of the translator: every failure of a
/// transformation is one of these, and no partial output is valid.
#[derive(Clone, PartialEq, Eq, Structural, Debug)]
pub enum Error {
    /// A section magic or fixed header byte was not what the format requires.
    BadMagic,
    /// A record's stored length disagrees with its recomputed layout length.
    LengthMismatch,
    /// An export entry names an address no action starts at.
    UnknownExport,
    /// Two exports claim the same action.
    DuplicateExport,
    /// A decoded 3-word operand matches no known operand shape.
    BadParameter,
    /// The buffer ends before the structure it promises.
    Truncated,
    /// A reference to a label that no line ever defines.
    UnresolvedLabel,
    /// A length or address does not fit the fixed-width file representation.
    Overflow,
    /// A data-pool cell breaks the cell grammar (header, alignment, padding).
    BadCell,
    /// A malformed assembly line; carries the zero-based source line number.
    Syntax(usize),
    /// An escape sequence the escape grammar does not know.
    MalformedEscape(usize),
    /// Base64 text that does not decode.
    BadBase64(usize),
}

} // verus!
