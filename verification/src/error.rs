//! Error values of the resolution engine.

use crate::text::texts;
use vstd::prelude::*;
use vstd::string::*;

verus! {

/// The error type of `std::io`, carried through without being inspected.
#[verifier::external_type_specification]
#[verifier::external_body]
pub struct ExIoError(std::io::Error);

/// The error type of `serde_json`, carried through without being inspected.
#[verifier::external_type_specification]
#[verifier::external_body]
pub struct ExJsonError(serde_json::Error);

/// Why a placeholder could not be replaced.
#[derive(Debug)]
pub enum InterpolationError {
    /// An `env` placeholder names a variable that the environment lacks.
    MissingEnvVar(String),
    /// An open marker without a close marker, a placeholder without a colon,
    /// or a kind other than `env` and `expr`.
    InvalidFormat,
    /// An `expr` placeholder names an expression that is not built in.
    InvalidExpr(String),
}

/// Mathematical model of an `InterpolationError`.
pub enum Failure {
    MissingEnvVar(Seq<char>),
    InvalidFormat,
    InvalidExpr(Seq<char>),
}

impl View for InterpolationError {
    type V = Failure;

    open spec fn view(&self) -> Failure {
        match self {
            InterpolationError::MissingEnvVar(name) => Failure::MissingEnvVar(name@),
            InterpolationError::InvalidFormat => Failure::InvalidFormat,
            InterpolationError::InvalidExpr(name) => Failure::InvalidExpr(name@),
        }
    }
}

/// The text that describes a failure.
pub open spec fn failure_message(f: Failure) -> Seq<char> {
    match f {
        Failure::MissingEnvVar(name) => "missing env var: '"@ + name + "'"@,
        Failure::InvalidFormat => "invalid interpolation format"@,
        Failure::InvalidExpr(name) => "invalid expr: '"@ + name + "'"@,
    }
}

impl InterpolationError {
    /// A description of the error for the user.
    pub fn message(&self) -> (text: String)
        ensures
            text@ == failure_message(self@),
    {
        match self {
            InterpolationError::MissingEnvVar(name) => {
                let mut text = "missing env var: '".to_owned();
                text.append(name.as_str());
                text.append("'");
                text
            },
            InterpolationError::InvalidFormat => "invalid interpolation format".to_owned(),
            InterpolationError::InvalidExpr(name) => {
                let mut text = "invalid expr: '".to_owned();
                text.append(name.as_str());
                text.append("'");
                text
            },
        }
    }
}

/// Everything that can go wrong between a request's name and the resolved
/// request.
#[derive(Debug)]
pub enum KuiperError {
    /// Reading a file or a directory failed for a reason other than absence.
    IoError(std::io::Error),
    /// A file, or an interpolated body, is not the JSON that was expected.
    JsonError(serde_json::Error),
    /// There is no request definition where one was looked for.
    RequestNotFound,
    /// A search matched more than one request definition; the names of all
    /// candidates are given.
    Ambiguous(Vec<String>),
    /// A file is not laid out as a request definition.
    FileFormatError,
    /// A path cannot be written as text.
    PathError,
    /// A placeholder could not be replaced.
    InterpolationError(InterpolationError),
}

pub type KuiperResult<T> = Result<T, KuiperError>;

impl From<std::io::Error> for KuiperError {
    fn from(value: std::io::Error) -> (error: Self) {
        Self::IoError(value)
    }
}

impl vstd::std_specs::convert::FromSpecImpl<std::io::Error> for KuiperError {
    open spec fn obeys_from_spec() -> bool {
        true
    }

    open spec fn from_spec(value: std::io::Error) -> Self {
        KuiperError::IoError(value)
    }
}

impl From<serde_json::Error> for KuiperError {
    fn from(value: serde_json::Error) -> (error: Self) {
        Self::JsonError(value)
    }
}

impl vstd::std_specs::convert::FromSpecImpl<serde_json::Error> for KuiperError {
    open spec fn obeys_from_spec() -> bool {
        true
    }

    open spec fn from_spec(value: serde_json::Error) -> Self {
        KuiperError::JsonError(value)
    }
}

impl From<InterpolationError> for KuiperError {
    fn from(value: InterpolationError) -> (error: Self) {
        Self::InterpolationError(value)
    }
}

impl vstd::std_specs::convert::FromSpecImpl<InterpolationError> for KuiperError {
    open spec fn obeys_from_spec() -> bool {
        true
    }

    open spec fn from_spec(value: InterpolationError) -> Self {
        KuiperError::InterpolationError(value)
    }
}

/// `Display` of a `std::io::Error`; the text depends on the error and on the
/// platform, so nothing is said of it.
#[verifier::external_body]
fn io_error_text(error: &std::io::Error) -> (text: String) {
    format!("{error}")
}

/// `Display` of a `serde_json::Error`: the message with line and column;
/// nothing is said of it.
#[verifier::external_body]
fn json_error_text(error: &serde_json::Error) -> (text: String) {
    format!("{error}")
}

/// `names` joined by `", "`.
pub open spec fn joined(names: Seq<Seq<char>>) -> Seq<char>
    decreases names.len(),
{
    if names.len() == 0 {
        Seq::empty()
    } else if names.len() == 1 {
        names[0]
    } else {
        joined(names.drop_last()) + ", "@ + names.last()
    }
}

/// Joins `names` with `", "`.
pub fn join_names(names: &Vec<String>) -> (text: String)
    ensures
        text@ == joined(texts(names@)),
{
    let mut text = String::new();
    let mut i: usize = 0;
    while i < names.len()
        invariant
            i <= names.len(),
            text@ == joined(texts(names@).subrange(0, i as int)),
        decreases names.len() - i,
    {
        let ghost done = texts(names@).subrange(0, i as int);
        let ghost next = texts(names@).subrange(0, i + 1);
        assert(next.drop_last() =~= done);
        assert(next.last() == names@[i as int]@);
        if i > 0 {
            text.append(", ");
        } else {
            assert(text@ + names@[i as int]@ =~= names@[i as int]@);
        }
        text.append(names[i].as_str());
        i += 1;
    }
    assert(texts(names@).subrange(0, names.len() as int) =~= texts(names@));
    text
}

impl KuiperError {
    /// Returns `true` if the error is `FileFormatError`.
    #[must_use]
    pub fn is_file_format_error(&self) -> (b: bool)
        ensures
            b == (self is FileFormatError),
    {
        matches!(self, Self::FileFormatError)
    }

    /// What `message` returns, as far as it is determined by the error alone.
    /// An interpolation error is framed: its own text stands in quotes behind
    /// `interpolation error`, whichever of its cases it is.
    /// For the two variants that carry an outside error, `detail` stands for
    /// that error's own text.
    pub open spec fn message_with(self, detail: Seq<char>) -> Seq<char> {
        match self {
            KuiperError::IoError(_) => "I/O error: "@ + detail,
            KuiperError::JsonError(_) => "JSON error: "@ + detail,
            KuiperError::RequestNotFound => "request not found"@,
            KuiperError::Ambiguous(names) => "multiple candidate requests: ["@ + joined(
                texts(names@),
            ) + "]"@,
            KuiperError::FileFormatError => "file format error"@,
            KuiperError::PathError => "path error"@,
            KuiperError::InterpolationError(e) => "interpolation error '"@ + failure_message(e@)
                + "'"@,
        }
    }

    /// A description of the error for the user.
    pub fn message(&self) -> (text: String)
        ensures
            exists|detail: Seq<char>| text@ == #[trigger] self.message_with(detail),
            !(self is IoError || self is JsonError) ==> text@ == self.message_with(Seq::empty()),
    {
        match self {
            KuiperError::IoError(error) => {
                let detail = io_error_text(error);
                let mut text = "I/O error: ".to_owned();
                text.append(detail.as_str());
                assert(text@ == self.message_with(detail@));
                text
            },
            KuiperError::JsonError(error) => {
                let detail = json_error_text(error);
                let mut text = "JSON error: ".to_owned();
                text.append(detail.as_str());
                assert(text@ == self.message_with(detail@));
                text
            },
            KuiperError::RequestNotFound => {
                let text = "request not found".to_owned();
                assert(text@ == self.message_with(Seq::empty()));
                text
            },
            KuiperError::Ambiguous(names) => {
                let mut text = "multiple candidate requests: [".to_owned();
                text.append(join_names(names).as_str());
                text.append("]");
                assert(text@ == self.message_with(Seq::empty()));
                text
            },
            KuiperError::FileFormatError => {
                let text = "file format error".to_owned();
                assert(text@ == self.message_with(Seq::empty()));
                text
            },
            KuiperError::PathError => {
                let text = "path error".to_owned();
                assert(text@ == self.message_with(Seq::empty()));
                text
            },
            KuiperError::InterpolationError(e) => {
                let mut text = "interpolation error '".to_owned();
                text.append(e.message().as_str());
                text.append("'");
                assert(text@ == self.message_with(Seq::empty()));
                text
            },
        }
    }
}

} // verus!
