//! What can go wrong with an archive.

use vstd::prelude::*;

use crate::path::{OsPath, PathView};
use crate::text::{decimal_text, join2, join3};

verus! {

/// Why a read or a write came to nothing.
#[derive(Debug)]
pub struct IoFailure {
    /// Whether the input ended before the bytes that were wanted.
    pub unexpected_eof: bool,
    /// What the system says about it.
    pub message: String,
}

/// What an [`IoFailure`] holds.
#[verifier::ext_equal]
pub struct FailureView {
    pub unexpected_eof: bool,
    pub message: Seq<char>,
}

impl View for IoFailure {
    type V = FailureView;

    open spec fn view(&self) -> FailureView {
        FailureView { unexpected_eof: self.unexpected_eof, message: self.message@ }
    }
}

impl IoFailure {
    /// The failure of a read past the end of the input.
    pub fn end_of_file() -> (failure: IoFailure)
        ensures
            failure@ == FailureView::end_of_file(),
    {
        IoFailure { unexpected_eof: true, message: String::from_str("unexpected end of file") }
    }

    /// A second copy of the failure.
    pub fn copy(&self) -> (failure: IoFailure)
        ensures
            failure@ == self@,
    {
        IoFailure {
            unexpected_eof: self.unexpected_eof,
            message: String::from_str(self.message.as_str()),
        }
    }
}

impl FailureView {
    /// The failure of a read past the end of the input.
    pub open spec fn end_of_file() -> FailureView {
        FailureView { unexpected_eof: true, message: "unexpected end of file"@ }
    }
}

/// The two ways in which an extraction fails.
#[derive(Debug)]
pub enum FastGmadErrorKind {
    /// The archive is not one, or is damaged.
    InvalidGma(String),
    /// A file could not be read or written.
    Io(IoFailure),
}

/// What was being done when an error came up, and to which file.
#[derive(Debug)]
pub struct ErrorContext {
    pub doing: String,
    pub path: Option<OsPath>,
}

/// The error of an extraction.
#[derive(Debug)]
pub struct FastGmadError {
    pub kind: FastGmadErrorKind,
    pub context: Option<ErrorContext>,
}

/// What a [`FastGmadErrorKind`] holds.
#[verifier::ext_equal]
pub enum KindView {
    InvalidGma(Seq<char>),
    Io(FailureView),
}

/// What an [`ErrorContext`] holds.
#[verifier::ext_equal]
pub struct ContextView {
    pub doing: Seq<char>,
    pub path: Option<PathView>,
}

/// What a [`FastGmadError`] holds.
#[verifier::ext_equal]
pub struct ErrorView {
    pub kind: KindView,
    pub context: Option<ContextView>,
}

impl View for FastGmadErrorKind {
    type V = KindView;

    open spec fn view(&self) -> KindView {
        match self {
            FastGmadErrorKind::InvalidGma(message) => KindView::InvalidGma(message@),
            FastGmadErrorKind::Io(failure) => KindView::Io(failure@),
        }
    }
}

impl View for ErrorContext {
    type V = ContextView;

    open spec fn view(&self) -> ContextView {
        ContextView {
            doing: self.doing@,
            path: match self.path {
                Some(path) => Some(path@),
                None => None,
            },
        }
    }
}

impl View for FastGmadError {
    type V = ErrorView;

    open spec fn view(&self) -> ErrorView {
        ErrorView {
            kind: self.kind@,
            context: match self.context {
                Some(context) => Some(context@),
                None => None,
            },
        }
    }
}

impl ErrorView {
    /// The archive is at fault, as `message` says.
    pub open spec fn gma(message: Seq<char>) -> ErrorView {
        ErrorView { kind: KindView::InvalidGma(message), context: None }
    }

    /// `failure` came up while `doing` something, to the file at `path` where one is given.
    pub open spec fn io(
        failure: FailureView,
        doing: Seq<char>,
        path: Option<PathView>,
    ) -> ErrorView {
        ErrorView { kind: KindView::Io(failure), context: Some(ContextView { doing, path }) }
    }

    /// `failure` came up while reading the head of the archive: if the input ended there, the
    /// archive is at fault.
    pub open spec fn reading(failure: FailureView, context: Seq<char>) -> ErrorView {
        if failure.unexpected_eof {
            ErrorView::gma(context + ": unexpected end of file, GMA is truncated"@)
        } else {
            ErrorView::io(failure, context, None)
        }
    }

    /// `failure` came up while reading the contents of the entry that goes to `path`.
    pub open spec fn entry(failure: FailureView, path: PathView) -> ErrorView {
        if failure.unexpected_eof {
            ErrorView::gma("GMA is truncated, entry \""@ + path.shown() + "\" is cut short"@)
        } else {
            ErrorView::io(failure, "reading GMA entry data"@, Some(path))
        }
    }

    /// `failed` of the files could not be written.
    pub open spec fn unwritten(failed: nat) -> ErrorView {
        ErrorView::io(
            FailureView {
                unexpected_eof: false,
                message: crate::text::decimal(failed) + " files failed to write"@,
            },
            "extracting GMA entries"@,
            None,
        )
    }

    /// The error as a message: what was being done and to which file, then what went wrong.
    pub open spec fn message(self) -> Seq<char> {
        let cause = match self.kind {
            KindView::InvalidGma(message) => message,
            KindView::Io(failure) => failure.message,
        };
        match self.context {
            None => cause,
            Some(context) => match context.path {
                None => context.doing + ": "@ + cause,
                Some(path) => context.doing + " \""@ + path.shown() + "\": "@ + cause,
            },
        }
    }
}

impl FastGmadError {
    /// The error of `failure`, which came up while `doing` something to the file at `path`.
    pub fn io(failure: IoFailure, doing: &str, path: Option<&OsPath>) -> (error: FastGmadError)
        ensures
            error@ == ErrorView::io(
                failure@,
                doing@,
                match path {
                    Some(p) => Some(p@),
                    None => None,
                },
            ),
    {
        let path = match path {
            Some(p) => Some(p.copy()),
            None => None,
        };
        FastGmadError {
            kind: FastGmadErrorKind::Io(failure),
            context: Some(ErrorContext { doing: String::from_str(doing), path }),
        }
    }

    /// The error as a message.
    pub fn message(&self) -> (text: String)
        ensures
            text@ == self@.message(),
    {
        let cause = match &self.kind {
            FastGmadErrorKind::InvalidGma(message) => message.as_str(),
            FastGmadErrorKind::Io(failure) => failure.message.as_str(),
        };
        match &self.context {
            None => String::from_str(cause),
            Some(context) => match &context.path {
                None => join3(context.doing.as_str(), ": ", cause),
                Some(path) => {
                    let shown = path.display();
                    let mut text = join3(context.doing.as_str(), " \"", shown.as_str());
                    text.append("\": ");
                    text.append(cause);
                    text
                },
            },
        }
    }
}

/// The error of an archive that is not one, or is damaged.
pub fn gma_err(message: String) -> (error: FastGmadError)
    ensures
        error@ == ErrorView::gma(message@),
{
    FastGmadError { kind: FastGmadErrorKind::InvalidGma(message), context: None }
}

/// Passes on what a read of the head of the archive gave; `context` says what was being read.
pub fn map_io<T>(res: Result<T, IoFailure>, context: &str) -> (out: Result<T, FastGmadError>)
    ensures
        match res {
            Ok(value) => out == Ok::<T, FastGmadError>(value),
            Err(failure) => out matches Err(e) && e@ == ErrorView::reading(failure@, context@),
        },
{
    match res {
        Ok(value) => Ok(value),
        Err(failure) => {
            if failure.unexpected_eof {
                Err(gma_err(join2(context, ": unexpected end of file, GMA is truncated")))
            } else {
                Err(FastGmadError::io(failure, context, None))
            }
        },
    }
}

/// The error of `failure`, which came up while reading the contents of the entry that goes to
/// `path`.
pub fn entry_truncated(failure: IoFailure, path: &OsPath) -> (error: FastGmadError)
    ensures
        error@ == ErrorView::entry(failure@, path@),
{
    if failure.unexpected_eof {
        let shown = path.display();
        gma_err(join3("GMA is truncated, entry \"", shown.as_str(), "\" is cut short"))
    } else {
        FastGmadError::io(failure, "reading GMA entry data", Some(path))
    }
}

/// The error that an extraction ends with in which `failed` files could not be written, if any.
pub open spec fn end_of_writes(failed: nat) -> Option<ErrorView> {
    if failed == 0 {
        None
    } else {
        Some(ErrorView::unwritten(failed))
    }
}

/// The error that `out` is, if it is one.
pub open spec fn error_of(out: Result<(), FastGmadError>) -> Option<ErrorView> {
    match out {
        Ok(_) => None,
        Err(e) => Some(e@),
    }
}

/// The end of an extraction in which `failed` files could not be written.
pub fn finish_failed_writes(failed: usize) -> (out: Result<(), FastGmadError>)
    ensures
        failed == 0 ==> out is Ok,
        failed > 0 ==> (out matches Err(e) && e@ == ErrorView::unwritten(failed as nat)),
        error_of(out) == end_of_writes(failed as nat),
{
    if failed == 0 {
        return Ok(());
    }
    let count = decimal_text(failed as u64);
    let message = join2(count.as_str(), " files failed to write");
    let failure = IoFailure { unexpected_eof: false, message };
    Err(FastGmadError::io(failure, "extracting GMA entries", None))
}

} // verus!
