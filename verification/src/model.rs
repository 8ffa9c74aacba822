//! The data that extraction produces and resolution consumes, each with the
//! mathematical view that the contracts speak of.
use crate::text::{opt_view, opt_views, views};
use vstd::prelude::*;

verus! {

/// A span of source lines, both ends 1-indexed and inclusive.
#[derive(Debug, Clone, Copy, PartialEq, Eq, Structural)]
pub struct LineRange {
    pub lines_start: usize,
    pub lines_end: usize,
}

/// A statement as one document yields it, before any label is checked.
#[derive(Debug, Clone)]
pub struct ParsedEnv {
    pub env_type: String,
    pub relative_path: String,
    pub spec_lines: LineRange,
    pub proof_lines: Option<LineRange>,
    pub labels: Vec<String>,
    pub code_name: Option<String>,
    pub lean_names: Option<Vec<String>>,
    pub spec_ok: bool,
    pub mathlib_ok: bool,
    pub not_ready: bool,
    pub discussion: Vec<String>,
    pub spec_dependencies: Vec<String>,
    pub proof_ok: Option<bool>,
    pub proof_mathlib_ok: Option<bool>,
    pub proof_not_ready: Option<bool>,
    pub proof_discussion: Option<Vec<String>>,
    pub proof_dependencies: Option<Vec<String>>,
    pub proof_lean_names: Option<Vec<String>>,
}

/// The view of a `ParsedEnv`.
pub struct EnvView {
    pub env_type: Seq<char>,
    pub relative_path: Seq<char>,
    pub spec_lines: LineRange,
    pub proof_lines: Option<LineRange>,
    pub labels: Seq<Seq<char>>,
    pub code_name: Option<Seq<char>>,
    pub lean_names: Option<Seq<Seq<char>>>,
    pub spec_ok: bool,
    pub mathlib_ok: bool,
    pub not_ready: bool,
    pub discussion: Seq<Seq<char>>,
    pub spec_dependencies: Seq<Seq<char>>,
    pub proof_ok: Option<bool>,
    pub proof_mathlib_ok: Option<bool>,
    pub proof_not_ready: Option<bool>,
    pub proof_discussion: Option<Seq<Seq<char>>>,
    pub proof_dependencies: Option<Seq<Seq<char>>>,
    pub proof_lean_names: Option<Seq<Seq<char>>>,
}

impl View for ParsedEnv {
    type V = EnvView;

    open spec fn view(&self) -> EnvView {
        EnvView {
            env_type: self.env_type@,
            relative_path: self.relative_path@,
            spec_lines: self.spec_lines,
            proof_lines: self.proof_lines,
            labels: views(self.labels@),
            code_name: opt_view(self.code_name),
            lean_names: opt_views(self.lean_names),
            spec_ok: self.spec_ok,
            mathlib_ok: self.mathlib_ok,
            not_ready: self.not_ready,
            discussion: views(self.discussion@),
            spec_dependencies: views(self.spec_dependencies@),
            proof_ok: self.proof_ok,
            proof_mathlib_ok: self.proof_mathlib_ok,
            proof_not_ready: self.proof_not_ready,
            proof_discussion: opt_views(self.proof_discussion),
            proof_dependencies: opt_views(self.proof_dependencies),
            proof_lean_names: opt_views(self.proof_lean_names),
        }
    }
}

/// A proof block that names the statements it proves by a back-reference.
#[derive(Debug, Clone)]
pub struct StandaloneProof {
    pub proves_labels: Vec<String>,
    pub lines: LineRange,
    pub proof_ok: bool,
    pub mathlib_ok: bool,
    pub not_ready: bool,
    pub discussion: Vec<String>,
    pub dependencies: Vec<String>,
    pub lean_names: Vec<String>,
}

/// The view of a `StandaloneProof`.
pub struct ProofView {
    pub proves_labels: Seq<Seq<char>>,
    pub lines: LineRange,
    pub proof_ok: bool,
    pub mathlib_ok: bool,
    pub not_ready: bool,
    pub discussion: Seq<Seq<char>>,
    pub dependencies: Seq<Seq<char>>,
    pub lean_names: Seq<Seq<char>>,
}

impl View for StandaloneProof {
    type V = ProofView;

    open spec fn view(&self) -> ProofView {
        ProofView {
            proves_labels: views(self.proves_labels@),
            lines: self.lines,
            proof_ok: self.proof_ok,
            mathlib_ok: self.mathlib_ok,
            not_ready: self.not_ready,
            discussion: views(self.discussion@),
            dependencies: views(self.dependencies@),
            lean_names: views(self.lean_names@),
        }
    }
}

/// One entity of the graph: a statement with its proof, if it has one.
///
/// `label` is the last of `labels`. The two dependency lists hold raw labels
/// until resolution, canonical names after it.
#[derive(Debug, Clone)]
pub struct Stub {
    pub label: String,
    pub stub_type: String,
    pub stub_path: String,
    pub stub_spec: LineRange,
    pub stub_proof: Option<LineRange>,
    pub labels: Vec<String>,
    pub code_name: Option<String>,
    pub lean_names: Option<Vec<String>>,
    pub spec_ok: bool,
    pub mathlib_ok: bool,
    pub not_ready: bool,
    pub discussion: Vec<String>,
    pub spec_dependencies: Vec<String>,
    pub proof_ok: Option<bool>,
    pub proof_mathlib_ok: Option<bool>,
    pub proof_not_ready: Option<bool>,
    pub proof_discussion: Option<Vec<String>>,
    pub proof_dependencies: Option<Vec<String>>,
    pub proof_lean_names: Option<Vec<String>>,
}

/// The view of a `Stub`.
pub struct StubView {
    pub label: Seq<char>,
    pub stub_type: Seq<char>,
    pub stub_path: Seq<char>,
    pub stub_spec: LineRange,
    pub stub_proof: Option<LineRange>,
    pub labels: Seq<Seq<char>>,
    pub code_name: Option<Seq<char>>,
    pub lean_names: Option<Seq<Seq<char>>>,
    pub spec_ok: bool,
    pub mathlib_ok: bool,
    pub not_ready: bool,
    pub discussion: Seq<Seq<char>>,
    pub spec_dependencies: Seq<Seq<char>>,
    pub proof_ok: Option<bool>,
    pub proof_mathlib_ok: Option<bool>,
    pub proof_not_ready: Option<bool>,
    pub proof_discussion: Option<Seq<Seq<char>>>,
    pub proof_dependencies: Option<Seq<Seq<char>>>,
    pub proof_lean_names: Option<Seq<Seq<char>>>,
}

impl View for Stub {
    type V = StubView;

    open spec fn view(&self) -> StubView {
        StubView {
            label: self.label@,
            stub_type: self.stub_type@,
            stub_path: self.stub_path@,
            stub_spec: self.stub_spec,
            stub_proof: self.stub_proof,
            labels: views(self.labels@),
            code_name: opt_view(self.code_name),
            lean_names: opt_views(self.lean_names),
            spec_ok: self.spec_ok,
            mathlib_ok: self.mathlib_ok,
            not_ready: self.not_ready,
            discussion: views(self.discussion@),
            spec_dependencies: views(self.spec_dependencies@),
            proof_ok: self.proof_ok,
            proof_mathlib_ok: self.proof_mathlib_ok,
            proof_not_ready: self.proof_not_ready,
            proof_discussion: opt_views(self.proof_discussion),
            proof_dependencies: opt_views(self.proof_dependencies),
            proof_lean_names: opt_views(self.proof_lean_names),
        }
    }
}

} // verus!

verus! {

/// Why a run is abandoned.
#[derive(Debug, Clone)]
pub enum StubError {
    /// A label was declared a second time.
    DuplicateLabel { label: String },
    /// A dependency names a label that no statement owns. `stub` is the
    /// canonical name of the entity that holds the reference, and
    /// `proof_side` tells whether it stands among the proof's dependencies.
    UnknownLabel { label: String, stub: String, proof_side: bool },
}

/// The view of a `StubError`.
pub enum ErrorView {
    DuplicateLabel { label: Seq<char> },
    UnknownLabel { label: Seq<char>, stub: Seq<char>, proof_side: bool },
}

impl View for StubError {
    type V = ErrorView;

    open spec fn view(&self) -> ErrorView {
        match self {
            StubError::DuplicateLabel { label } => ErrorView::DuplicateLabel { label: label@ },
            StubError::UnknownLabel { label, stub, proof_side } => ErrorView::UnknownLabel {
                label: label@,
                stub: stub@,
                proof_side: *proof_side,
            },
        }
    }
}

/// The text of the message for an error.
pub open spec fn error_message(e: ErrorView) -> Seq<char> {
    match e {
        ErrorView::DuplicateLabel { label } => "Duplicate label found: "@ + label,
        ErrorView::UnknownLabel { label, stub, proof_side } => "Unknown label '"@ + label + (
        if proof_side {
            "' in proof-dependencies of stub '"@
        } else {
            "' in spec-dependencies of stub '"@
        }) + stub + "'"@,
    }
}

impl StubError {
    /// The human-readable message for this error.
    pub fn message(&self) -> (m: String)
        ensures
            m@ == error_message(self@),
    {
        match self {
            StubError::DuplicateLabel { label } => {
                let mut m = "Duplicate label found: ".to_owned();
                m.append(label.as_str());
                m
            },
            StubError::UnknownLabel { label, stub, proof_side } => {
                let mut m = "Unknown label '".to_owned();
                m.append(label.as_str());
                if *proof_side {
                    m.append("' in proof-dependencies of stub '");
                } else {
                    m.append("' in spec-dependencies of stub '");
                }
                m.append(stub.as_str());
                m.append("'");
                m
            },
        }
    }
}

} // verus!
