//! Error types shared by validation and the conversions.

use vstd::prelude::*;

verus! {

/// What a single validation finding is about.
#[derive(Debug, Clone, PartialEq, Eq, Structural)]
pub enum ValidationErrorKind {
    CircularDependency,
    MissingDependency,
    InvalidConnectionCount,
}

/// Mathematical mirror of [`ValidationError`].
pub struct ValidationErrorV {
    pub kind: ValidationErrorKind,
    pub message: Seq<char>,
}

/// One finding of the dependency validator: its kind and a readable message.
#[derive(Debug, Clone)]
pub struct ValidationError {
    pub kind: ValidationErrorKind,
    pub message: String,
}

impl View for ValidationError {
    type V = ValidationErrorV;

    open spec fn view(&self) -> ValidationErrorV {
        ValidationErrorV { kind: self.kind, message: self.message@ }
    }
}

/// The views of a list of validation errors, in order.
pub open spec fn errors_view(s: Seq<ValidationError>) -> Seq<ValidationErrorV>
    decreases s,
{
    if s.len() == 0 {
        Seq::empty()
    } else {
        errors_view(s.drop_last()).push(s.last()@)
    }
}

pub broadcast proof fn lemma_errors_view_len(s: Seq<ValidationError>)
    ensures
        #[trigger] errors_view(s).len() == s.len(),
    decreases s,
{
    if s.len() != 0 {
        lemma_errors_view_len(s.drop_last());
    }
}

pub broadcast proof fn lemma_errors_view_index(s: Seq<ValidationError>, i: int)
    requires
        0 <= i < s.len(),
    ensures
        #[trigger] errors_view(s)[i] == s[i]@,
    decreases s,
{
    lemma_errors_view_len(s);
    if i < s.len() - 1 {
        lemma_errors_view_index(s.drop_last(), i);
    }
}

pub broadcast group group_errors_view {
    lemma_errors_view_len,
    lemma_errors_view_index,
}

impl ValidationError {
    pub fn new(kind: ValidationErrorKind, message: String) -> (r: Self)
        ensures
            r.kind == kind,
            r.message@ == message@,
    {
        Self { kind, message }
    }
}

/// The crate-level error type.
#[derive(Debug, Clone)]
pub enum Error {
    /// The graph failed validation; all findings are carried along.
    InvalidGraph(Vec<ValidationError>),
    /// Parameters do not make sense together.
    InvalidParams,
    /// An unknown notation name or file extension.
    InvalidType(String),
    /// The surface text does not follow its grammar.
    ParseError(String),
    /// A conversion target cannot represent the source graph.
    ConversionError(String),
    /// Rendering or writing the output failed.
    RenderError(String),
}

impl From<Vec<ValidationError>> for Error {
    fn from(errors: Vec<ValidationError>) -> (r: Self) {
        Error::InvalidGraph(errors)
    }
}

impl vstd::std_specs::convert::FromSpecImpl<Vec<ValidationError>> for Error {
    open spec fn obeys_from_spec() -> bool {
        true
    }

    open spec fn from_spec(errors: Vec<ValidationError>) -> Error {
        Error::InvalidGraph(errors)
    }
}

} // verus!
