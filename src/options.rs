//! Parse configuration flags and parser diagnostics.
use vstd::prelude::*;

verus! {

/// Recover on errors.
pub const XML_PARSE_RECOVER: u32 = 1;
/// Substitute entities.
pub const XML_PARSE_NOENT: u32 = 2;
/// Load the external subset.
pub const XML_PARSE_DTDLOAD: u32 = 4;
/// Default DTD attributes.
pub const XML_PARSE_DTDATTR: u32 = 8;
/// Validate with the DTD.
pub const XML_PARSE_DTDVALID: u32 = 16;
/// Suppress error reports.
pub const XML_PARSE_NOERROR: u32 = 32;
/// Suppress warning reports.
pub const XML_PARSE_NOWARNING: u32 = 64;
/// Pedantic error reporting.
pub const XML_PARSE_PEDANTIC: u32 = 128;
/// Remove blank text nodes.
pub const XML_PARSE_NOBLANKS: u32 = 256;
/// Implement XInclude substitution.
pub const XML_PARSE_XINCLUDE: u32 = 1024;
/// Forbid network access.
pub const XML_PARSE_NONET: u32 = 2048;
/// Relax any hardcoded limit of the parser (large text nodes).
pub const XML_PARSE_HUGE: u32 = 524288;
/// Parse using the pre-2.7 SAX1 behaviour for compatibility.
pub const XML_PARSE_OLDSAX: u32 = 1048576;
/// Ignore the encoding declared inside the document.
pub const XML_PARSE_IGNORE_ENC: u32 = 2097152;
/// Store big line numbers in the text PSVI field.
pub const XML_PARSE_BIG_LINES: u32 = 4194304;

/// A set of parser configuration flags.
#[derive(Clone, Copy, Debug, PartialEq, Eq, Structural)]
pub struct ParseOptions {
    pub bits: u32,
}

impl ParseOptions {
    /// The flags with the given bit pattern.
    pub fn from_bits(bits: u32) -> (r: ParseOptions)
        ensures
            r.bits == bits,
    {
        ParseOptions { bits }
    }

    /// The empty flag set.
    pub fn empty() -> (r: ParseOptions)
        ensures
            r.bits == 0,
    {
        ParseOptions { bits: 0 }
    }

    /// The default configuration for documents: recover from malformed
    /// markup and keep the parser from printing to the console.
    pub fn default_xml() -> (r: ParseOptions)
        ensures
            r.bits == XML_PARSE_RECOVER | XML_PARSE_NOERROR | XML_PARSE_NOWARNING,
    {
        ParseOptions { bits: XML_PARSE_RECOVER | XML_PARSE_NOERROR | XML_PARSE_NOWARNING }
    }

    /// The raw bit pattern.
    pub fn bits(&self) -> (r: u32)
        ensures
            r == self.bits,
    {
        self.bits
    }

    /// Whether every flag of `other` is set in `self`.
    pub fn contains(&self, other: ParseOptions) -> (r: bool)
        ensures
            r == (self.bits & other.bits == other.bits),
    {
        self.bits & other.bits == other.bits
    }

    /// The flags set in either operand.
    pub fn union(&self, other: ParseOptions) -> (r: ParseOptions)
        ensures
            r.bits == self.bits | other.bits,
    {
        ParseOptions { bits: self.bits | other.bits }
    }

    /// The flags of `self` with those of `other` cleared.
    pub fn difference(&self, other: ParseOptions) -> (r: ParseOptions)
        ensures
            r.bits == self.bits & !other.bits,
    {
        ParseOptions { bits: self.bits & !other.bits }
    }
}

/// One diagnostic reported by the parser.
#[derive(Clone, Debug)]
pub struct XmlError {
    pub message: String,
    pub level: u32,
    pub line: u32,
    pub column: u32,
}

} // verus!
