//! The errors that evaluation and storage report.

use vstd::prelude::*;

verus! {

/// What went wrong. Each variant carries the name or the source position that
/// the failure is about.
#[derive(Debug)]
pub enum Error {
    /// The program tree breaks a rule of its own shape.
    BadAst(String),
    /// A name has no binding.
    NotFound(String),
    /// A name is bound twice in one frame.
    AlreadyDefined(String),
    /// A variable was read before it was given a value.
    UseOfUndefined(String),
    ExpectedBool(String),
    ExpectedFieldConstant(String),
    ExpectedArray(String),
    ArityMismatch(String),
    /// An expression of degree above two.
    NonQuadratic(String),
    /// A constraint of degree two without a single product on its left side.
    NonQuadraticConstraint(String),
    NonConstantDivisor(String),
    DivisionByZero(String),
    /// A function body declared a signal or stated a constraint.
    SignalInFunction(String),
    DuplicateSignal(String),
    /// An output of a sub-component was read before all its inputs were set.
    PrematureOutputRead(String),
    NonConstantLoopCondition(String),
    NonConstantIndex(String),
    OutOfBounds(String),
    /// A function body ended without a `return`.
    MissingReturn(String),
    /// A `return` outside of any function or template body.
    NoEnclosingReturnTarget(String),
    /// A constraint names a signal that was never declared.
    InvalidConstraintSignal(String),
    /// Evaluation took more steps than the caller allowed.
    StepLimitExceeded(String),
    StorageIo(String),
    StorageSerialization(String),
    StorageCorruption(String),
    /// A state that the evaluator's own rules exclude.
    InternalInvariant(String),
}

/// The kind of an error, without its detail.
#[derive(Clone, Copy, Debug, PartialEq, Eq, Structural)]
pub enum ErrorKind {
    BadAst,
    NotFound,
    AlreadyDefined,
    UseOfUndefined,
    ExpectedBool,
    ExpectedFieldConstant,
    ExpectedArray,
    ArityMismatch,
    NonQuadratic,
    NonQuadraticConstraint,
    NonConstantDivisor,
    DivisionByZero,
    SignalInFunction,
    DuplicateSignal,
    PrematureOutputRead,
    NonConstantLoopCondition,
    NonConstantIndex,
    OutOfBounds,
    MissingReturn,
    NoEnclosingReturnTarget,
    InvalidConstraintSignal,
    StepLimitExceeded,
    StorageIo,
    StorageSerialization,
    StorageCorruption,
    InternalInvariant,
}

/// An error as contracts see it.
pub struct ErrorView {
    pub kind: ErrorKind,
    pub detail: Seq<char>,
}

impl View for Error {
    type V = ErrorView;

    open spec fn view(&self) -> ErrorView {
        match self {
            Error::BadAst(d) => ErrorView { kind: ErrorKind::BadAst, detail: d@ },
            Error::NotFound(d) => ErrorView { kind: ErrorKind::NotFound, detail: d@ },
            Error::AlreadyDefined(d) => ErrorView { kind: ErrorKind::AlreadyDefined, detail: d@ },
            Error::UseOfUndefined(d) => ErrorView { kind: ErrorKind::UseOfUndefined, detail: d@ },
            Error::ExpectedBool(d) => ErrorView { kind: ErrorKind::ExpectedBool, detail: d@ },
            Error::ExpectedFieldConstant(d) => ErrorView { kind: ErrorKind::ExpectedFieldConstant, detail: d@ },
            Error::ExpectedArray(d) => ErrorView { kind: ErrorKind::ExpectedArray, detail: d@ },
            Error::ArityMismatch(d) => ErrorView { kind: ErrorKind::ArityMismatch, detail: d@ },
            Error::NonQuadratic(d) => ErrorView { kind: ErrorKind::NonQuadratic, detail: d@ },
            Error::NonQuadraticConstraint(d) => ErrorView { kind: ErrorKind::NonQuadraticConstraint, detail: d@ },
            Error::NonConstantDivisor(d) => ErrorView { kind: ErrorKind::NonConstantDivisor, detail: d@ },
            Error::DivisionByZero(d) => ErrorView { kind: ErrorKind::DivisionByZero, detail: d@ },
            Error::SignalInFunction(d) => ErrorView { kind: ErrorKind::SignalInFunction, detail: d@ },
            Error::DuplicateSignal(d) => ErrorView { kind: ErrorKind::DuplicateSignal, detail: d@ },
            Error::PrematureOutputRead(d) => ErrorView { kind: ErrorKind::PrematureOutputRead, detail: d@ },
            Error::NonConstantLoopCondition(d) => ErrorView { kind: ErrorKind::NonConstantLoopCondition, detail: d@ },
            Error::NonConstantIndex(d) => ErrorView { kind: ErrorKind::NonConstantIndex, detail: d@ },
            Error::OutOfBounds(d) => ErrorView { kind: ErrorKind::OutOfBounds, detail: d@ },
            Error::MissingReturn(d) => ErrorView { kind: ErrorKind::MissingReturn, detail: d@ },
            Error::NoEnclosingReturnTarget(d) => ErrorView { kind: ErrorKind::NoEnclosingReturnTarget, detail: d@ },
            Error::InvalidConstraintSignal(d) => ErrorView { kind: ErrorKind::InvalidConstraintSignal, detail: d@ },
            Error::StepLimitExceeded(d) => ErrorView { kind: ErrorKind::StepLimitExceeded, detail: d@ },
            Error::StorageIo(d) => ErrorView { kind: ErrorKind::StorageIo, detail: d@ },
            Error::StorageSerialization(d) => ErrorView { kind: ErrorKind::StorageSerialization, detail: d@ },
            Error::StorageCorruption(d) => ErrorView { kind: ErrorKind::StorageCorruption, detail: d@ },
            Error::InternalInvariant(d) => ErrorView { kind: ErrorKind::InternalInvariant, detail: d@ },
        }
    }
}

impl Error {
    /// The error of kind `kind` about `detail`.
    pub fn new(kind: ErrorKind, detail: String) -> (r: Error)
        ensures
            r@ == (ErrorView { kind, detail: detail@ }),
    {
        match kind {
            ErrorKind::BadAst => Error::BadAst(detail),
            ErrorKind::NotFound => Error::NotFound(detail),
            ErrorKind::AlreadyDefined => Error::AlreadyDefined(detail),
            ErrorKind::UseOfUndefined => Error::UseOfUndefined(detail),
            ErrorKind::ExpectedBool => Error::ExpectedBool(detail),
            ErrorKind::ExpectedFieldConstant => Error::ExpectedFieldConstant(detail),
            ErrorKind::ExpectedArray => Error::ExpectedArray(detail),
            ErrorKind::ArityMismatch => Error::ArityMismatch(detail),
            ErrorKind::NonQuadratic => Error::NonQuadratic(detail),
            ErrorKind::NonQuadraticConstraint => Error::NonQuadraticConstraint(detail),
            ErrorKind::NonConstantDivisor => Error::NonConstantDivisor(detail),
            ErrorKind::DivisionByZero => Error::DivisionByZero(detail),
            ErrorKind::SignalInFunction => Error::SignalInFunction(detail),
            ErrorKind::DuplicateSignal => Error::DuplicateSignal(detail),
            ErrorKind::PrematureOutputRead => Error::PrematureOutputRead(detail),
            ErrorKind::NonConstantLoopCondition => Error::NonConstantLoopCondition(detail),
            ErrorKind::NonConstantIndex => Error::NonConstantIndex(detail),
            ErrorKind::OutOfBounds => Error::OutOfBounds(detail),
            ErrorKind::MissingReturn => Error::MissingReturn(detail),
            ErrorKind::NoEnclosingReturnTarget => Error::NoEnclosingReturnTarget(detail),
            ErrorKind::InvalidConstraintSignal => Error::InvalidConstraintSignal(detail),
            ErrorKind::StepLimitExceeded => Error::StepLimitExceeded(detail),
            ErrorKind::StorageIo => Error::StorageIo(detail),
            ErrorKind::StorageSerialization => Error::StorageSerialization(detail),
            ErrorKind::StorageCorruption => Error::StorageCorruption(detail),
            ErrorKind::InternalInvariant => Error::InternalInvariant(detail),
        }
    }

    /// The kind of the error.
    pub fn kind(&self) -> (r: ErrorKind)
        ensures
            r == self@.kind,
    {
        match self {
            Error::BadAst(_) => ErrorKind::BadAst,
            Error::NotFound(_) => ErrorKind::NotFound,
            Error::AlreadyDefined(_) => ErrorKind::AlreadyDefined,
            Error::UseOfUndefined(_) => ErrorKind::UseOfUndefined,
            Error::ExpectedBool(_) => ErrorKind::ExpectedBool,
            Error::ExpectedFieldConstant(_) => ErrorKind::ExpectedFieldConstant,
            Error::ExpectedArray(_) => ErrorKind::ExpectedArray,
            Error::ArityMismatch(_) => ErrorKind::ArityMismatch,
            Error::NonQuadratic(_) => ErrorKind::NonQuadratic,
            Error::NonQuadraticConstraint(_) => ErrorKind::NonQuadraticConstraint,
            Error::NonConstantDivisor(_) => ErrorKind::NonConstantDivisor,
            Error::DivisionByZero(_) => ErrorKind::DivisionByZero,
            Error::SignalInFunction(_) => ErrorKind::SignalInFunction,
            Error::DuplicateSignal(_) => ErrorKind::DuplicateSignal,
            Error::PrematureOutputRead(_) => ErrorKind::PrematureOutputRead,
            Error::NonConstantLoopCondition(_) => ErrorKind::NonConstantLoopCondition,
            Error::NonConstantIndex(_) => ErrorKind::NonConstantIndex,
            Error::OutOfBounds(_) => ErrorKind::OutOfBounds,
            Error::MissingReturn(_) => ErrorKind::MissingReturn,
            Error::NoEnclosingReturnTarget(_) => ErrorKind::NoEnclosingReturnTarget,
            Error::InvalidConstraintSignal(_) => ErrorKind::InvalidConstraintSignal,
            Error::StepLimitExceeded(_) => ErrorKind::StepLimitExceeded,
            Error::StorageIo(_) => ErrorKind::StorageIo,
            Error::StorageSerialization(_) => ErrorKind::StorageSerialization,
            Error::StorageCorruption(_) => ErrorKind::StorageCorruption,
            Error::InternalInvariant(_) => ErrorKind::InternalInvariant,
        }
    }

    /// The name or source position that the error is about.
    pub fn detail(&self) -> (r: &String)
        ensures
            r@ == self@.detail,
    {
        match self {
            Error::BadAst(d) => d,
            Error::NotFound(d) => d,
            Error::AlreadyDefined(d) => d,
            Error::UseOfUndefined(d) => d,
            Error::ExpectedBool(d) => d,
            Error::ExpectedFieldConstant(d) => d,
            Error::ExpectedArray(d) => d,
            Error::ArityMismatch(d) => d,
            Error::NonQuadratic(d) => d,
            Error::NonQuadraticConstraint(d) => d,
            Error::NonConstantDivisor(d) => d,
            Error::DivisionByZero(d) => d,
            Error::SignalInFunction(d) => d,
            Error::DuplicateSignal(d) => d,
            Error::PrematureOutputRead(d) => d,
            Error::NonConstantLoopCondition(d) => d,
            Error::NonConstantIndex(d) => d,
            Error::OutOfBounds(d) => d,
            Error::MissingReturn(d) => d,
            Error::NoEnclosingReturnTarget(d) => d,
            Error::InvalidConstraintSignal(d) => d,
            Error::StepLimitExceeded(d) => d,
            Error::StorageIo(d) => d,
            Error::StorageSerialization(d) => d,
            Error::StorageCorruption(d) => d,
            Error::InternalInvariant(d) => d,
        }
    }
}

impl PartialEq for Error {
    /// Two errors are equal if they are of one kind and about one thing.
    fn eq(&self, other: &Error) -> (r: bool) {
        self.kind() == other.kind() && *self.detail() == *other.detail()
    }
}

impl vstd::std_specs::cmp::PartialEqSpecImpl for Error {
    open spec fn obeys_eq_spec() -> bool {
        true
    }

    open spec fn eq_spec(&self, other: &Error) -> bool {
        self@.kind == other@.kind && self@.detail == other@.detail
    }
}

} // verus!
