//! What can go wrong on a walk.

use crate::decimal::{decimal, unsigned_to_decimal};
use crate::text::owned;
use vstd::prelude::*;
use vstd::string::*;

verus! {

/// The shape that a JSON value was expected to have.
#[derive(Clone, Copy, Debug, PartialEq, Eq, Structural)]
pub enum ExpectationError {
    Number,
    String,
    Boolean,
    Array,
    ArrayOfLength(u32),
    Object,
}

impl ExpectationError {
    /// The message of this error.
    pub open spec fn message_text(self) -> Seq<char> {
        match self {
            ExpectationError::Number => "Expected number"@,
            ExpectationError::String => "Expected string"@,
            ExpectationError::Boolean => "Expected boolean"@,
            ExpectationError::Array => "Expected array"@,
            ExpectationError::ArrayOfLength(n) => "Expected array of length "@ + decimal(n as nat),
            ExpectationError::Object => "Expected object"@,
        }
    }

    /// The message of this error.
    pub fn message(&self) -> (r: String)
        ensures
            r@ == self.message_text(),
    {
        match self {
            ExpectationError::Number => owned("Expected number"),
            ExpectationError::String => owned("Expected string"),
            ExpectationError::Boolean => owned("Expected boolean"),
            ExpectationError::Array => owned("Expected array"),
            ExpectationError::ArrayOfLength(n) => {
                let digits = unsigned_to_decimal(*n as u128);
                owned("Expected array of length ").concat(digits.as_str())
            },
            ExpectationError::Object => owned("Expected object"),
        }
    }
}

/// Why a JSON value could not be encoded under a schema.
#[derive(Debug, PartialEq, Eq)]
pub enum EncodeError {
    /// The value has not the shape that its declaration asks for.
    Expectation(ExpectationError),
    /// The enum has no variant of this name.
    UnknownVariant(String),
    /// The object lacks the field of this name.
    MissingProperty(String),
    /// The schema defines no type of this name.
    UnknownDeclaration(String),
    /// The variant of this name stands beyond the 256th place of its enum.
    VariantOutOfRange(String),
    /// A string or a sequence is too long for its length to be written.
    TooLong,
    /// The definitions lead from this declaration back to it without end.
    Endless(String),
}

/// Why a JSON value could not be encoded, with names as their characters.
pub ghost enum EncodeErrorView {
    Expectation(ExpectationError),
    UnknownVariant(Seq<char>),
    MissingProperty(Seq<char>),
    UnknownDeclaration(Seq<char>),
    VariantOutOfRange(Seq<char>),
    TooLong,
    Endless(Seq<char>),
}

impl View for EncodeError {
    type V = EncodeErrorView;

    open spec fn view(&self) -> EncodeErrorView {
        match self {
            EncodeError::Expectation(e) => EncodeErrorView::Expectation(*e),
            EncodeError::UnknownVariant(s) => EncodeErrorView::UnknownVariant(s@),
            EncodeError::MissingProperty(s) => EncodeErrorView::MissingProperty(s@),
            EncodeError::UnknownDeclaration(s) => EncodeErrorView::UnknownDeclaration(s@),
            EncodeError::VariantOutOfRange(s) => EncodeErrorView::VariantOutOfRange(s@),
            EncodeError::TooLong => EncodeErrorView::TooLong,
            EncodeError::Endless(s) => EncodeErrorView::Endless(s@),
        }
    }
}

/// Why bytes could not be decoded under a schema.
#[derive(Debug, PartialEq, Eq)]
pub enum DecodeError {
    /// The bytes at hand are no value of the type of this name.
    Malformed(String),
    /// The schema defines no type of this name.
    UnknownDeclaration(String),
    /// The enum has no variant at this place.
    VariantOutOfRange(u8),
    /// The definitions lead from this declaration back to it without end.
    Endless(String),
}

/// Why bytes could not be decoded, with names as their characters.
pub ghost enum DecodeErrorView {
    Malformed(Seq<char>),
    UnknownDeclaration(Seq<char>),
    VariantOutOfRange(u8),
    Endless(Seq<char>),
}

impl View for DecodeError {
    type V = DecodeErrorView;

    open spec fn view(&self) -> DecodeErrorView {
        match self {
            DecodeError::Malformed(s) => DecodeErrorView::Malformed(s@),
            DecodeError::UnknownDeclaration(s) => DecodeErrorView::UnknownDeclaration(s@),
            DecodeError::VariantOutOfRange(i) => DecodeErrorView::VariantOutOfRange(*i),
            DecodeError::Endless(s) => DecodeErrorView::Endless(s@),
        }
    }
}

impl EncodeErrorView {
    /// The message of this error.
    pub open spec fn message(self) -> Seq<char> {
        match self {
            EncodeErrorView::Expectation(e) => e.message_text(),
            EncodeErrorView::UnknownVariant(name) => "Specified variant "@ + name
                + " does not exist in schema"@,
            EncodeErrorView::MissingProperty(key) => "Expected property "@ + key,
            EncodeErrorView::UnknownDeclaration(declaration) => "Unknown declaration to serialize: "@
                + declaration,
            EncodeErrorView::VariantOutOfRange(name) => "Variant "@ + name
                + " stands beyond the 256th place of its enum"@,
            EncodeErrorView::TooLong => "Too long for its length to be written"@,
            EncodeErrorView::Endless(declaration) => "Definitions lead without end back to "@
                + declaration,
        }
    }
}

impl EncodeError {
    /// The message of this error.
    pub fn message(&self) -> (r: String)
        ensures
            r@ == self@.message(),
    {
        match self {
            EncodeError::Expectation(e) => e.message(),
            EncodeError::UnknownVariant(name) => owned("Specified variant ").concat(
                name.as_str(),
            ).concat(" does not exist in schema"),
            EncodeError::MissingProperty(key) => owned("Expected property ").concat(key.as_str()),
            EncodeError::UnknownDeclaration(declaration) => owned(
                "Unknown declaration to serialize: ",
            ).concat(declaration.as_str()),
            EncodeError::VariantOutOfRange(name) => owned("Variant ").concat(name.as_str()).concat(
                " stands beyond the 256th place of its enum",
            ),
            EncodeError::TooLong => owned("Too long for its length to be written"),
            EncodeError::Endless(declaration) => owned(
                "Definitions lead without end back to ",
            ).concat(declaration.as_str()),
        }
    }
}

impl DecodeErrorView {
    /// The message of this error.
    pub open spec fn message(self) -> Seq<char> {
        match self {
            DecodeErrorView::Malformed(name) => "Failed to deserialize "@ + name,
            DecodeErrorView::UnknownDeclaration(declaration) => "Unknown type to deserialize: "@
                + declaration,
            DecodeErrorView::VariantOutOfRange(i) => "No variant at place "@ + decimal(i as nat),
            DecodeErrorView::Endless(declaration) => "Definitions lead without end back to "@
                + declaration,
        }
    }
}

impl DecodeError {
    /// The message of this error.
    pub fn message(&self) -> (r: String)
        ensures
            r@ == self@.message(),
    {
        match self {
            DecodeError::Malformed(name) => owned("Failed to deserialize ").concat(name.as_str()),
            DecodeError::UnknownDeclaration(declaration) => owned(
                "Unknown type to deserialize: ",
            ).concat(declaration.as_str()),
            DecodeError::VariantOutOfRange(i) => {
                let place = unsigned_to_decimal(*i as u128);
                owned("No variant at place ").concat(place.as_str())
            },
            DecodeError::Endless(declaration) => owned(
                "Definitions lead without end back to ",
            ).concat(declaration.as_str()),
        }
    }
}

} // verus!
