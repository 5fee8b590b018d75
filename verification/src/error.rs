//! Why a DTD could not be read.
use vstd::prelude::*;

verus! {

/// The kind of markup declaration being read.
#[derive(Debug, Clone, Copy, PartialEq, Eq, Structural)]
pub enum DeclKind {
    Element,
    Attlist,
    Entity,
}

/// Every way reading a DTD can fail. Positions are byte offsets into the text
/// that was being scanned; `found` holds the byte seen there, if any.
#[derive(Debug)]
pub enum DtdError {
    /// A declaration opened at `position` has no closing `>`.
    Unclosed { decl: DeclKind, position: usize },
    /// An element declaration holds a single word.
    MissingContentModel { text: String },
    /// Content model: `expected` was wanted at `position`.
    ExpectedChar { expected: u8, position: usize, found: Option<u8> },
    /// Content model: it does not start with `(`.
    ExpectedOpenParen,
    /// Content model: a mixed group does not start with `#PCDATA`.
    ExpectedPcdata,
    /// Content model: a group's first particle is followed by neither `)`, `,` nor `|`.
    UnexpectedInGroup { found: Option<u8> },
    /// Content model: no name at `position`.
    ExpectedName { position: usize },
    /// Attribute list: no name at `position`.
    ExpectedAttName { position: usize },
    /// Attribute list: the type keyword (upper-cased) is not known.
    UnknownAttrType { keyword: String },
    /// Attribute list: an enumeration value is followed by neither `|` nor `)`.
    BadEnumeration,
    /// Attribute list: `#keyword` (upper-cased) is not a known default.
    UnknownDefault { keyword: String },
    /// Attribute list: no default declaration at `position`.
    ExpectedDefault { position: usize },
    /// A quoted string was wanted but the text ended.
    ExpectedQuotedString,
    /// Attribute list: a quoted string was wanted.
    ExpectedQuote,
    /// Attribute list: a quoted string is not closed.
    UnclosedQuote,
    /// Entity: a quoted string was wanted.
    ExpectedQuoteChar,
    /// Entity: a quoted string is not closed.
    UnclosedQuotedString,
    /// Entity: the value is neither quoted nor `SYSTEM` nor `PUBLIC`.
    UnexpectedEntityValue { value: String },
}

/// The mathematical form of a [`DtdError`].
pub enum ErrorView {
    Unclosed { decl: DeclKind, position: int },
    MissingContentModel { text: Seq<char> },
    ExpectedChar { expected: u8, position: int, found: Option<u8> },
    ExpectedOpenParen,
    ExpectedPcdata,
    UnexpectedInGroup { found: Option<u8> },
    ExpectedName { position: int },
    ExpectedAttName { position: int },
    UnknownAttrType { keyword: Seq<char> },
    BadEnumeration,
    UnknownDefault { keyword: Seq<char> },
    ExpectedDefault { position: int },
    ExpectedQuotedString,
    ExpectedQuote,
    UnclosedQuote,
    ExpectedQuoteChar,
    UnclosedQuotedString,
    UnexpectedEntityValue { value: Seq<char> },
}

impl View for DtdError {
    type V = ErrorView;

    open spec fn view(&self) -> ErrorView {
        match self {
            DtdError::Unclosed { decl, position } => ErrorView::Unclosed {
                decl: *decl,
                position: *position as int,
            },
            DtdError::MissingContentModel { text } => ErrorView::MissingContentModel { text: text@ },
            DtdError::ExpectedChar { expected, position, found } => ErrorView::ExpectedChar {
                expected: *expected,
                position: *position as int,
                found: *found,
            },
            DtdError::ExpectedOpenParen => ErrorView::ExpectedOpenParen,
            DtdError::ExpectedPcdata => ErrorView::ExpectedPcdata,
            DtdError::UnexpectedInGroup { found } => ErrorView::UnexpectedInGroup { found: *found },
            DtdError::ExpectedName { position } => ErrorView::ExpectedName {
                position: *position as int,
            },
            DtdError::ExpectedAttName { position } => ErrorView::ExpectedAttName {
                position: *position as int,
            },
            DtdError::UnknownAttrType { keyword } => ErrorView::UnknownAttrType { keyword: keyword@ },
            DtdError::BadEnumeration => ErrorView::BadEnumeration,
            DtdError::UnknownDefault { keyword } => ErrorView::UnknownDefault { keyword: keyword@ },
            DtdError::ExpectedDefault { position } => ErrorView::ExpectedDefault {
                position: *position as int,
            },
            DtdError::ExpectedQuotedString => ErrorView::ExpectedQuotedString,
            DtdError::ExpectedQuote => ErrorView::ExpectedQuote,
            DtdError::UnclosedQuote => ErrorView::UnclosedQuote,
            DtdError::ExpectedQuoteChar => ErrorView::ExpectedQuoteChar,
            DtdError::UnclosedQuotedString => ErrorView::UnclosedQuotedString,
            DtdError::UnexpectedEntityValue { value } => ErrorView::UnexpectedEntityValue {
                value: value@,
            },
        }
    }
}

} // verus!
