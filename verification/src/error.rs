//! What goes wrong while packages are resolved.
use vstd::prelude::*;
use vstd::string::*;

use crate::types::{views, Span};

verus! {

/// An error with the place in the source text that it is about, where there is one.
#[derive(Debug)]
pub struct Error {
    pub span: Option<Span>,
    pub msg: String,
    /// What was being done when the error came up, from the innermost step to the outermost.
    pub context: Vec<String>,
}

/// View of an [`Error`].
#[verifier::ext_equal]
pub struct ErrorView {
    pub span: Option<Span>,
    pub msg: Seq<char>,
    pub context: Seq<Seq<char>>,
}

impl View for Error {
    type V = ErrorView;

    open spec fn view(&self) -> ErrorView {
        ErrorView { span: self.span, msg: self.msg@, context: views(self.context@) }
    }
}

/// The view of an outcome.
pub open spec fn outcome<T>(result: Result<T, Error>) -> Result<T, ErrorView> {
    match result {
        Ok(value) => Ok(value),
        Err(error) => Err(error@),
    }
}

/// The error with a message that is about no place in the source text.
pub open spec fn failure(msg: Seq<char>) -> ErrorView {
    ErrorView { span: None, msg, context: Seq::empty() }
}

/// The error with a message about a place in the source text.
pub open spec fn failure_at(span: Span, msg: Seq<char>) -> ErrorView {
    ErrorView { span: Some(span), msg, context: Seq::empty() }
}

/// The error that came up in one more step.
pub open spec fn in_context(error: ErrorView, step: Seq<char>) -> ErrorView {
    ErrorView { context: error.context.push(step), ..error }
}

impl Error {
    pub(crate) fn new(msg: String) -> (error: Error)
        ensures
            error@ == failure(msg@),
    {
        let error = Error { span: None, msg, context: Vec::new() };
        assert(error@ =~= failure(msg@));
        error
    }

    pub(crate) fn at(span: Span, msg: String) -> (error: Error)
        ensures
            error@ == failure_at(span, msg@),
    {
        let error = Error { span: Some(span), msg, context: Vec::new() };
        assert(error@ =~= failure_at(span, msg@));
        error
    }

    pub(crate) fn within(self, step: String) -> (error: Error)
        ensures
            error@ == in_context(self@, step@),
    {
        let mut error = self;
        error.context.push(step);
        assert(error@.context =~= self@.context.push(step@));
        error
    }
}

/// A text with a name in its middle.
pub(crate) fn sentence(before: &str, name: &str, after: &str) -> (text: String)
    ensures
        text@ == before@ + name@ + after@,
{
    let mut text = before.to_owned();
    text.append(name);
    text.append(after);
    text
}

} // verus!
