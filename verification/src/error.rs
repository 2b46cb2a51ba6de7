//! What can go wrong while a snapshot is read and decoded.

use crate::tag::{node_text, settled, Node, Tag};
use vstd::prelude::*;
use vstd::string::*;

verus! {

/// The ways in which reading and decoding a snapshot fails.
#[derive(Debug, PartialEq)]
pub enum Error {
    /// The bytes of the file hold no tag tree; the reader's message.
    NBTError(String),
    /// A required field is absent from a node; the field's name.
    MissingNbtField(&'static str),
    /// A required field holds a node of the wrong kind: the field's name, the
    /// kind that was expected, and the node that was found.
    WrongTypeNbtField { field: &'static str, expected_type: &'static str, real_data: Tag },
    /// A field that must hold a list holds a node of another kind; the
    /// field's name.
    NotAList(&'static str),
}

/// An error as a mathematical value.
pub enum ErrorView {
    NBTError(Seq<char>),
    MissingNbtField(Seq<char>),
    WrongTypeNbtField { field: Seq<char>, expected_type: Seq<char>, real_data: Node },
    NotAList(Seq<char>),
}

impl View for Error {
    type V = ErrorView;

    open spec fn view(&self) -> ErrorView {
        match self {
            Error::NBTError(message) => ErrorView::NBTError(message@),
            Error::MissingNbtField(field) => ErrorView::MissingNbtField(field@),
            Error::WrongTypeNbtField { field, expected_type, real_data } => {
                ErrorView::WrongTypeNbtField {
                    field: field@,
                    expected_type: expected_type@,
                    real_data: real_data@,
                }
            },
            Error::NotAList(field) => ErrorView::NotAList(field@),
        }
    }
}

impl ErrorView {
    /// The message of an error, where `shown` is the text of the node that a
    /// type mismatch found.
    pub open spec fn message(self, shown: Seq<char>) -> Seq<char> {
        match self {
            ErrorView::NBTError(message) => message,
            ErrorView::MissingNbtField(field) => "NBT object missing field \""@ + field + "\""@,
            ErrorView::WrongTypeNbtField { field, expected_type, real_data } => "Nbt field \""@
                + field + "\" is \""@ + shown + "\", expected type \""@ + expected_type + "\""@,
            ErrorView::NotAList(field) => "Nbt field \""@ + field + "\" is not a list"@,
        }
    }

    /// Whether `shown` can be the text of the node that a type mismatch
    /// found: where the text of the node is settled, it is that text.
    pub open spec fn shows(self, shown: Seq<char>) -> bool {
        match self {
            ErrorView::WrongTypeNbtField { field, expected_type, real_data } => settled(real_data)
                ==> shown == node_text(real_data),
            _ => true,
        }
    }
}

impl Error {
    /// The message of the error, for a reader.
    pub fn message(&self) -> (r: String)
        ensures
            exists|shown: Seq<char>| self@.shows(shown) && r@ == #[trigger] self@.message(shown),
    {
        match self {
            Error::NBTError(message) => {
                let r = message.clone();
                assert(r@ == self@.message(Seq::empty()));
                r
            },
            Error::MissingNbtField(field) => {
                let mut r = String::from_str("NBT object missing field \"");
                r.append(field);
                r.append("\"");
                assert(r@ == self@.message(Seq::empty()));
                r
            },
            Error::WrongTypeNbtField { field, expected_type, real_data } => {
                let shown = real_data.text();
                let mut r = String::from_str("Nbt field \"");
                r.append(field);
                r.append("\" is \"");
                r.append(shown.as_str());
                r.append("\", expected type \"");
                r.append(expected_type);
                r.append("\"");
                assert(r@ == self@.message(shown@));
                r
            },
            Error::NotAList(field) => {
                let mut r = String::from_str("Nbt field \"");
                r.append(field);
                r.append("\" is not a list");
                assert(r@ == self@.message(Seq::empty()));
                r
            },
        }
    }
}

} // verus!
