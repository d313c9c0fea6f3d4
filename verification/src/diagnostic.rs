use vstd::prelude::*;

use crate::ast::Span;

verus! {

/// How serious a diagnostic is.
#[derive(Debug, Clone, Copy, PartialEq, Eq, Structural)]
pub enum Level {
    Error,
    Warning,
}

/// What a diagnostic is about.
#[derive(Debug, Clone, Copy, PartialEq, Eq, Structural)]
pub enum ErrorCode {
    UnknownBlock,
    UnknownInline,
    MissingRequiredArg,
    UnknownArg,
    InvalidType,
    InvalidStaticEnumValue,
    InvalidDynamicEnumValue,
    BlockNotClosed,
}

/// A problem found in a document, with where it is and, maybe, how to fix it.
#[derive(Debug, Clone, PartialEq, Eq)]
pub struct Diagnostic {
    pub level: Level,
    pub code: ErrorCode,
    pub message: String,
    pub span: Span,
    pub suggestion: Option<String>,
}

/// Model of a diagnostic.
pub struct DiagnosticV {
    pub level: Level,
    pub code: ErrorCode,
    pub message: Seq<char>,
    pub span: Span,
    pub suggestion: Option<Seq<char>>,
}

impl View for Diagnostic {
    type V = DiagnosticV;

    open spec fn view(&self) -> DiagnosticV {
        DiagnosticV {
            level: self.level,
            code: self.code,
            message: self.message@,
            span: self.span,
            suggestion: match self.suggestion {
                Some(s) => Some(s@),
                None => None,
            },
        }
    }
}

/// An error diagnostic with the given parts.
pub open spec fn error_diag(
    code: ErrorCode,
    message: Seq<char>,
    span: Span,
    suggestion: Option<Seq<char>>,
) -> DiagnosticV {
    DiagnosticV { level: Level::Error, code, message, span, suggestion }
}

/// Model of a list of diagnostics.
pub open spec fn diags_view(ds: Seq<Diagnostic>) -> Seq<DiagnosticV> {
    ds.map_values(|d: Diagnostic| d@)
}

/// Builds an error diagnostic.
pub fn new_error(code: ErrorCode, message: String, span: Span, suggestion: Option<String>) -> (d:
    Diagnostic)
    ensures
        d@ == error_diag(
            code,
            message@,
            span,
            match suggestion {
                Some(s) => Some(s@),
                None => None,
            },
        ),
{
    Diagnostic { level: Level::Error, code, message, span, suggestion }
}

} // verus!
