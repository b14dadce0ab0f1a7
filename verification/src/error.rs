//! Failures that an operation reports.

use vstd::prelude::*;

verus! {

/// Why an operation declined to produce an answer.
#[derive(Clone, Copy, Debug, PartialEq, Eq, Structural)]
pub enum Failure {
    /// A quoted-printable literal above `U+00FF`.
    QuotedPrintableNotAByte,
    /// A TEA mode other than ECB, CBC, CFB, OFB or CTR.
    TeaInvalidMode,
    /// A TEA padding other than PKCS5, NO, ZERO, RANDOM or BIT.
    TeaInvalidPadding,
    /// A message that is not whole blocks, with no padding to make it so.
    TeaUnpaddedInput,
    /// Padding that does not mark where it starts.
    TeaBadPadding,
    /// Blocked ciphertext that is not whole blocks.
    TeaBadLength,
    /// Random padding, which has no reproducible answer.
    TeaRandomPadding,
    /// A key that is not sixteen bytes.
    TeaInvalidKey,
    /// An initialisation vector that is neither empty nor eight bytes.
    TeaInvalidIv,
    /// An XTEA cycle count outside 1 to 255.
    TeaInvalidRounds,
    /// An output format other than `Hex` or `Raw`.
    TeaInvalidFormat,
    /// A set operation given the wrong number of samples.
    SetsWrongSampleCount,
    /// A distance given other than two samples.
    DistanceWrongSampleCount,
    /// Samples of different lengths for a Hamming distance.
    DistanceLengthMismatch,
    /// An edit cost below zero.
    DistanceNegativeCost,
    /// An edit cost above four billion.
    DistanceCostTooLarge,
    /// A permission string in neither octal nor textual form.
    PermissionsUnrecognisedFormat,
    /// An escape prefix other than `\\u`, `%u` or `U+`.
    UnicodeInvalidPrefix,
    /// A NetBIOS pair whose first byte is more than fifteen above the offset.
    NetbiosOutOfRange,
    /// A number in Punycode that does not fit in 32 bits.
    PunycodeOverflow,
    /// A non-ASCII character before the last hyphen of a Punycode label.
    PunycodeNotBasic,
    /// Punycode that ends in the middle of a number.
    PunycodeTruncated,
    /// A Punycode digit that is neither a letter nor a decimal digit.
    PunycodeInvalidDigit,
    /// Punycode that decodes to a value that is not a character.
    PunycodeNotACharacter,
    /// Fewer than two samples to compare.
    OffsetNotEnoughSamples,
    /// Highlighted output that is not valid UTF-16.
    OffsetUnpairedSurrogate,
    /// A step for taking or dropping bytes that is not positive.
    NthInvalidEvery,
    /// A negative starting position for taking or dropping bytes.
    NthInvalidStart,
    /// A reversal unit other than `Byte`, `Character` or `Line`.
    ReverseInvalidScope,
    /// A suggestion depth outside 1 to 3.
    SuggestInvalidDepth,
    /// A suggestion count outside 1 to 32.
    SuggestInvalidMaxResults,
    /// Text for an integer with a character above `U+00FF`.
    TextIntegerBeyondLatin1,
    /// An object identifier with a character other than a digit or `.`.
    OidMalformed,
    /// An object identifier without two leading arcs.
    OidTooFewArcs,
    /// A group of an encoded identifier that is not hexadecimal.
    OidNotHex,
    /// A PEM block that opens and never closes.
    PemMissingFooter,
    /// The first two arcs of an identifier combine to no whole number.
    OidNotANumber,
    /// Type-Length-Value parsing with neither a key nor a length to read.
    TlvNoFieldSize,
}

/// What an operation reports instead of an output.
#[derive(Clone, Copy, Debug, PartialEq, Eq, Structural)]
pub enum OperationError {
    /// The operation refused its input, for the stated reason.
    Failed(Failure),
    /// The output would have exceeded the permitted size.
    OutputLimitExceeded,
    /// An argument had a value the operation cannot use.
    InvalidArguments,
}

} // verus!
