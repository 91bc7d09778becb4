//! The uniform error value of both subsystems.
//!
//! Every failure is stored as a kind and a text. A typed error is any type that
//! implements [`MacroError`]: it is erased into an [`Error`] by [`Error::new`] and
//! recovered, when the kind matches, by [`Error::downcast`].
use codespan_reporting::{Diagnostic, Label, Severity};
use vstd::prelude::*;
use vstd::std_specs::cmp::PartialEqSpecImpl;

verus! {

/// `Severity` of codespan-reporting, with its variants.
#[verifier::external_type_specification]
pub struct ExSeverity(Severity);

/// `Label` of codespan-reporting; nothing is said of what it holds.
#[verifier::external_type_specification]
#[verifier::external_body]
pub struct ExLabel(Label);

/// `Diagnostic` of codespan-reporting, with its fields.
#[verifier::external_type_specification]
pub struct ExDiagnostic(Diagnostic);

/// What went wrong, independently of the text that describes it.
#[derive(Clone, Copy, Debug, PartialEq, Eq, Structural, Hash)]
pub enum ErrorKind {
    /// A plain message.
    Message,
    /// The text of a module could not be had.
    Load,
    /// The text of a module does not parse.
    Parse,
    /// A module does not typecheck.
    Type,
    /// A typechecked module could not be compiled.
    Compile,
    /// A module imports itself, directly or through others.
    CyclicImport,
    /// No global matches any prefix of a name.
    UndefinedBinding,
    /// A field of a path is absent from the record it is looked up in.
    UndefinedField,
    /// A binding has no metadata.
    MetadataMissing,
    /// A macro failed at one invocation site.
    MacroExpansion,
    /// A derive attribute could not be turned into bindings.
    DeriveGeneration,
}

/// A failure of any kind, clonable and comparable.
#[derive(Debug, Hash)]
pub struct Error {
    pub kind: ErrorKind,
    pub text: String,
}

/// The view of an [`Error`]: its kind and the characters of its text.
pub struct ErrorView {
    pub kind: ErrorKind,
    pub text: Seq<char>,
}

impl View for Error {
    type V = ErrorView;

    open spec fn view(&self) -> ErrorView {
        ErrorView { kind: self.kind, text: self.text@ }
    }
}

impl PartialEq for Error {
    fn eq(&self, other: &Self) -> (r: bool) {
        self.kind == other.kind && self.text == other.text
    }
}

impl Eq for Error {

}

impl PartialEqSpecImpl for Error {
    open spec fn obeys_eq_spec() -> bool {
        true
    }

    open spec fn eq_spec(&self, other: &Self) -> bool {
        self.kind == other.kind && self.text@ == other.text@
    }
}

impl Clone for Error {
    fn clone(&self) -> (r: Self)
        ensures
            r == *self,
    {
        Error { kind: self.kind, text: self.text.clone() }
    }
}

/// A typed error that can be stored in an [`Error`] and recovered from it.
pub trait MacroError: Sized {
    /// The kind under which errors of this type are stored.
    spec fn tag() -> ErrorKind;

    /// The text that describes this error.
    spec fn detail(&self) -> Seq<char>;

    /// The kind under which errors of this type are stored.
    fn kind() -> (k: ErrorKind)
        ensures
            k == Self::tag(),
    ;

    /// The text that describes this error.
    fn into_text(self) -> (s: String)
        ensures
            s@ == self.detail(),
    ;

    /// The error of this type that `text` describes.
    fn from_text(text: String) -> (e: Self)
        ensures
            e.detail() == text@,
    ;
}

/// The error behind [`Error::message`].
#[derive(Debug, PartialEq, Eq, Hash)]
pub struct StringError(pub String);

/// The text of a module could not be had.
#[derive(Debug, PartialEq, Eq, Hash)]
pub struct LoadError(pub String);

/// The named module imports itself.
#[derive(Debug, PartialEq, Eq, Hash)]
pub struct CyclicImportError(pub String);

/// No global matches any prefix of the name.
#[derive(Debug, PartialEq, Eq, Hash)]
pub struct UndefinedBinding(pub String);

/// The named field is absent.
#[derive(Debug, PartialEq, Eq, Hash)]
pub struct UndefinedField(pub String);

/// The named binding has no metadata.
#[derive(Debug, PartialEq, Eq, Hash)]
pub struct MetadataMissing(pub String);

impl MacroError for StringError {
    open spec fn tag() -> ErrorKind {
        ErrorKind::Message
    }

    open spec fn detail(&self) -> Seq<char> {
        self.0@
    }

    fn kind() -> (k: ErrorKind) {
        ErrorKind::Message
    }

    fn into_text(self) -> (s: String) {
        self.0
    }

    fn from_text(text: String) -> (e: Self) {
        StringError(text)
    }
}

impl MacroError for LoadError {
    open spec fn tag() -> ErrorKind {
        ErrorKind::Load
    }

    open spec fn detail(&self) -> Seq<char> {
        self.0@
    }

    fn kind() -> (k: ErrorKind) {
        ErrorKind::Load
    }

    fn into_text(self) -> (s: String) {
        self.0
    }

    fn from_text(text: String) -> (e: Self) {
        LoadError(text)
    }
}

impl MacroError for CyclicImportError {
    open spec fn tag() -> ErrorKind {
        ErrorKind::CyclicImport
    }

    open spec fn detail(&self) -> Seq<char> {
        self.0@
    }

    fn kind() -> (k: ErrorKind) {
        ErrorKind::CyclicImport
    }

    fn into_text(self) -> (s: String) {
        self.0
    }

    fn from_text(text: String) -> (e: Self) {
        CyclicImportError(text)
    }
}

impl MacroError for UndefinedBinding {
    open spec fn tag() -> ErrorKind {
        ErrorKind::UndefinedBinding
    }

    open spec fn detail(&self) -> Seq<char> {
        self.0@
    }

    fn kind() -> (k: ErrorKind) {
        ErrorKind::UndefinedBinding
    }

    fn into_text(self) -> (s: String) {
        self.0
    }

    fn from_text(text: String) -> (e: Self) {
        UndefinedBinding(text)
    }
}

impl MacroError for UndefinedField {
    open spec fn tag() -> ErrorKind {
        ErrorKind::UndefinedField
    }

    open spec fn detail(&self) -> Seq<char> {
        self.0@
    }

    fn kind() -> (k: ErrorKind) {
        ErrorKind::UndefinedField
    }

    fn into_text(self) -> (s: String) {
        self.0
    }

    fn from_text(text: String) -> (e: Self) {
        UndefinedField(text)
    }
}

impl MacroError for MetadataMissing {
    open spec fn tag() -> ErrorKind {
        ErrorKind::MetadataMissing
    }

    open spec fn detail(&self) -> Seq<char> {
        self.0@
    }

    fn kind() -> (k: ErrorKind) {
        ErrorKind::MetadataMissing
    }

    fn into_text(self) -> (s: String) {
        self.0
    }

    fn from_text(text: String) -> (e: Self) {
        MetadataMissing(text)
    }
}

/// `Diagnostic::new_error` of codespan-reporting: a diagnostic of severity
/// `Error` that carries the message and has neither a code nor labels.
#[verifier::external_body]
fn error_diagnostic(message: String) -> (d: Diagnostic)
    ensures
        d.severity == Severity::Error,
        d.code is None,
        d.message@ == message@,
        d.labels@.len() == 0,
{
    Diagnostic::new_error(message)
}

impl Error {
    /// Stores a typed error.
    pub fn new<E: MacroError>(err: E) -> (e: Error)
        ensures
            e.kind == E::tag(),
            e.text@ == err.detail(),
    {
        Error { kind: E::kind(), text: err.into_text() }
    }

    /// An error that is nothing but a message.
    pub fn message(s: &str) -> (e: Error)
        ensures
            e.kind == ErrorKind::Message,
            e.text@ == s@,
    {
        Error::new(StringError(s.to_owned()))
    }

    /// An error of the given kind, described by `text`.
    pub fn of_kind(kind: ErrorKind, text: String) -> (e: Error)
        ensures
            e.kind == kind,
            e.text == text,
    {
        Error { kind, text }
    }

    /// Recovers the typed error: `Ok` exactly when the error was stored under the
    /// kind of `T`, and then with the same text; otherwise the error comes back.
    pub fn downcast<T: MacroError>(self) -> (r: Result<Box<T>, Error>)
        ensures
            match r {
                Ok(t) => self.kind == T::tag() && t.detail() == self.text@,
                Err(e) => self.kind != T::tag() && e == self,
            },
    {
        if self.kind == T::kind() {
            Ok(Box::new(T::from_text(self.text)))
        } else {
            Err(self)
        }
    }

    /// The text that describes the error.
    pub fn description(&self) -> (s: &str)
        ensures
            s@ == self.text@,
    {
        self.text.as_str()
    }

    /// The error as a diagnostic to show to the user.
    pub fn as_diagnostic(&self) -> (d: Diagnostic)
        ensures
            d.severity == Severity::Error,
            d.code is None,
            d.message@ == self.text@,
            d.labels@.len() == 0,
    {
        error_diagnostic(self.text.clone())
    }
}

} // verus!
