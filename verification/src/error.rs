//! The errors of this library.
use vstd::prelude::*;

verus! {

/// Why an operation was refused.
#[derive(Debug, Clone)]
pub enum DaftError {
    /// The request is well formed but outside the supported subset.
    NotImplemented(String),
    /// A value is invalid.
    ValueError(String),
    /// A named column does not exist.
    FieldNotFound(String),
    /// Another component failed; its message is kept.
    External(String),
}

/// A [`DaftError`] with its message as a sequence of characters.
pub enum ErrorView {
    NotImplemented(Seq<char>),
    ValueError(Seq<char>),
    FieldNotFound(Seq<char>),
    External(Seq<char>),
}

impl View for DaftError {
    type V = ErrorView;

    open spec fn view(&self) -> ErrorView {
        match *self {
            DaftError::NotImplemented(m) => ErrorView::NotImplemented(m@),
            DaftError::ValueError(m) => ErrorView::ValueError(m@),
            DaftError::FieldNotFound(m) => ErrorView::FieldNotFound(m@),
            DaftError::External(m) => ErrorView::External(m@),
        }
    }
}

impl DaftError {
    /// The message of the error.
    pub fn message(&self) -> (r: &str)
        ensures
            r@ == match self@ {
                ErrorView::NotImplemented(m) => m,
                ErrorView::ValueError(m) => m,
                ErrorView::FieldNotFound(m) => m,
                ErrorView::External(m) => m,
            },
    {
        match self {
            DaftError::NotImplemented(m) => m.as_str(),
            DaftError::ValueError(m) => m.as_str(),
            DaftError::FieldNotFound(m) => m.as_str(),
            DaftError::External(m) => m.as_str(),
        }
    }
}

/// A result whose value is text, seen as characters.
pub open spec fn text_result(r: Result<String, DaftError>) -> Result<Seq<char>, ErrorView> {
    match r {
        Ok(s) => Ok(s@),
        Err(e) => Err(e@),
    }
}

} // verus!
