use vstd::prelude::*;

verus! {

/// Why a conversion could not be carried out.
#[derive(Clone, Copy, Debug, PartialEq, Eq, Structural)]
pub enum ConversionError {
    /// The source could not be read, or it was not valid structured text.
    SourceRead,
    /// The source was read, but its shape does not match the expected schema.
    SourceSchema,
    /// The destination could not be created or written.
    DestinationWrite,
    /// The requested vocabulary kind has no conversion.
    Unsupported,
}

} // verus!
