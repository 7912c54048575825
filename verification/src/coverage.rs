//! The annotated view of one function: its lines, each cut into spans that
//! are classified by the counter that covers them.

use crate::fuzzcheck::{CounterId, OriginModel};
use crate::order::views;
use vstd::prelude::*;

verus! {

/// What is known of the coverage of a span.
#[derive(Clone, Copy, Debug, PartialEq, Eq, Structural)]
pub enum CoverageStatus {
    Hit,
    NotHit,
    Best,
    Unique,
    Unknown,
}

/// The class of a span: covered by no counter, by an inferred counter or by a
/// physical counter.
#[derive(Clone, Debug, PartialEq, Eq)]
pub enum CodeSpanKind {
    Untracked,
    Inferred { inferred_from: Vec<usize>, status: CoverageStatus },
    Physical { id: usize, status: CoverageStatus },
}

/// A piece of a line with its class.
#[derive(Clone, Debug, PartialEq, Eq)]
pub struct CodeSpan {
    pub text: String,
    pub kind: CodeSpanKind,
}

/// A line of a function, cut into spans.
#[derive(Clone, Debug, PartialEq, Eq)]
pub struct CodeLine {
    pub lineno: usize,
    pub spans: Vec<CodeSpan>,
}

/// The name of a function as the linker sees it and as a reader wants it.
#[derive(Clone, Debug, PartialEq, Eq, Hash)]
pub struct FunctionName {
    pub name: String,
    pub demangled_name: String,
}

/// The annotated view of one function.
#[derive(Clone, Debug, PartialEq, Eq)]
pub struct FunctionCoverage {
    pub name: FunctionName,
    pub file: String,
    pub lines: Vec<CodeLine>,
    pub counter_ids: Vec<usize>,
}

/// The mathematical value of a [`CodeSpanKind`].
pub enum SpanKindModel {
    Untracked,
    Inferred { inferred_from: Seq<usize>, status: CoverageStatus },
    Physical { id: usize, status: CoverageStatus },
}

/// The mathematical value of a [`CodeSpan`].
pub struct SpanModel {
    pub text: Seq<char>,
    pub kind: SpanKindModel,
}

/// The mathematical value of a [`CodeLine`].
pub struct LineModel {
    pub lineno: usize,
    pub spans: Seq<SpanModel>,
}

/// The mathematical value of a [`FunctionName`].
pub struct NameModel {
    pub name: Seq<char>,
    pub demangled_name: Seq<char>,
}

/// The mathematical value of a [`FunctionCoverage`].
pub struct CoverageModel {
    pub name: NameModel,
    pub file: Seq<char>,
    pub lines: Seq<LineModel>,
    pub counter_ids: Seq<usize>,
}

impl View for CodeSpanKind {
    type V = SpanKindModel;

    open spec fn view(&self) -> SpanKindModel {
        match self {
            CodeSpanKind::Untracked => SpanKindModel::Untracked,
            CodeSpanKind::Inferred { inferred_from, status } => SpanKindModel::Inferred {
                inferred_from: inferred_from@,
                status: *status,
            },
            CodeSpanKind::Physical { id, status } => SpanKindModel::Physical {
                id: *id,
                status: *status,
            },
        }
    }
}

impl View for CodeSpan {
    type V = SpanModel;

    open spec fn view(&self) -> SpanModel {
        SpanModel { text: self.text@, kind: self.kind@ }
    }
}

impl View for CodeLine {
    type V = LineModel;

    open spec fn view(&self) -> LineModel {
        LineModel { lineno: self.lineno, spans: views(self.spans@) }
    }
}

impl View for FunctionName {
    type V = NameModel;

    open spec fn view(&self) -> NameModel {
        NameModel { name: self.name@, demangled_name: self.demangled_name@ }
    }
}

impl View for FunctionCoverage {
    type V = CoverageModel;

    open spec fn view(&self) -> CoverageModel {
        CoverageModel {
            name: self.name@,
            file: self.file@,
            lines: views(self.lines@),
            counter_ids: self.counter_ids@,
        }
    }
}

/// The class of a span that `origin` covers, before anything is known of its
/// coverage.
pub open spec fn unknown_kind(origin: OriginModel) -> SpanKindModel {
    match origin {
        OriginModel::Physical { id } => SpanKindModel::Physical {
            id: id,
            status: CoverageStatus::Unknown,
        },
        OriginModel::Inferred { from } => SpanKindModel::Inferred {
            inferred_from: from,
            status: CoverageStatus::Unknown,
        },
    }
}

/// The class of a span that the counter `id` covers, with status `Unknown`.
pub fn unknown_code_span_kind_from_counter_id(id: CounterId) -> (kind: CodeSpanKind)
    ensures
        kind@ == unknown_kind(id@),
{
    match id {
        CounterId::Physical { id } => CodeSpanKind::Physical {
            id: id,
            status: CoverageStatus::Unknown,
        },
        CounterId::Inferred { from } => CodeSpanKind::Inferred {
            inferred_from: from,
            status: CoverageStatus::Unknown,
        },
    }
}

} // verus!
