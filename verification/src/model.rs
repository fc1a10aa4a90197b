//! Data model of a parsed report: the document header, one alignment
//! hit, the whole document, and the parse errors, together with the
//! spec-level models the parser contracts are stated over.
//!
//! Bit scores and expect values appear in the report as floating-point
//! literals; the library keeps the exact literal text (checked against
//! the grammar in [`crate::scan::is_float_lit`]) and leaves the numeric
//! conversion to the caller.

use vstd::prelude::*;

verus! {

/// Why a parse failed.
#[derive(Debug, PartialEq)]
pub enum ParseError {
    /// A required literal marker is missing from the remaining input;
    /// carries the marker that was looked for.
    AnchorNotFound(String),
    /// A numeric field has no digits, or its digits overflow the
    /// field's integer type.
    MalformedNumber,
    /// No further record start marker exists; the normal end of the
    /// record list, not a document-level failure.
    EndOfInput,
}

/// The one-time document preamble.
#[derive(Debug, PartialEq)]
pub struct Header {
    /// Program name, e.g. `BLASTX`.
    pub program: String,
    /// Query length in bases.
    pub query_length: u64,
}

/// One reported sequence-similarity hit.
#[derive(Debug, PartialEq)]
pub struct Alignment {
    /// Target name, trimmed of surrounding whitespace.
    pub name: String,
    /// Sequence identifier, e.g. `MBV99095.1`.
    pub seq_id: String,
    /// Length of the target sequence.
    pub length: i32,
    /// Start and end coordinates of the aligned region, if present.
    pub range: Option<(i64, i64)>,
    /// Bit score, as the exact literal text from the report.
    pub score: Option<String>,
    /// Expect value, as the exact literal text from the report.
    pub e_value: Option<String>,
}

/// A fully parsed report: the header and the hits in file order.
#[derive(Debug, PartialEq)]
pub struct Document {
    pub header: Header,
    pub alignments: Vec<Alignment>,
}

/// Spec-level model of a header.
pub ghost struct HeaderModel {
    pub program: Seq<char>,
    pub query_length: int,
}

/// Spec-level model of an alignment.
pub ghost struct AlignmentModel {
    pub name: Seq<char>,
    pub seq_id: Seq<char>,
    pub length: int,
    pub range: Option<(int, int)>,
    pub score: Option<Seq<char>>,
    pub e_value: Option<Seq<char>>,
}

/// Spec-level model of a document.
pub ghost struct DocumentModel {
    pub header: HeaderModel,
    pub alignments: Seq<AlignmentModel>,
}

/// Spec-level model of a parse error.
pub ghost enum ErrorModel {
    Anchor(Seq<char>),
    Number,
    End,
}

/// An executable header carries exactly the values of its model.
pub open spec fn header_matches(h: Header, m: HeaderModel) -> bool {
    &&& h.program@ == m.program
    &&& h.query_length as int == m.query_length
}

/// An optional coordinate pair carries exactly the values of its model.
pub open spec fn opt_pair_matches(o: Option<(i64, i64)>, m: Option<(int, int)>) -> bool {
    match (o, m) {
        (Some((a, b)), Some((x, y))) => a as int == x && b as int == y,
        (None, None) => true,
        _ => false,
    }
}

/// An optional text field carries exactly the characters of its model.
pub open spec fn opt_text_matches(o: Option<String>, m: Option<Seq<char>>) -> bool {
    match (o, m) {
        (Some(t), Some(ts)) => t@ == ts,
        (None, None) => true,
        _ => false,
    }
}

/// An executable alignment carries exactly the values of its model.
pub open spec fn alignment_matches(a: Alignment, m: AlignmentModel) -> bool {
    &&& a.name@ == m.name
    &&& a.seq_id@ == m.seq_id
    &&& a.length as int == m.length
    &&& opt_pair_matches(a.range, m.range)
    &&& opt_text_matches(a.score, m.score)
    &&& opt_text_matches(a.e_value, m.e_value)
}

/// An executable document carries exactly the values of its model.
pub open spec fn document_matches(d: Document, m: DocumentModel) -> bool {
    &&& header_matches(d.header, m.header)
    &&& d.alignments@.len() == m.alignments.len()
    &&& forall|i: int|
        0 <= i < m.alignments.len() ==> alignment_matches(#[trigger] d.alignments@[i], m.alignments[i])
}

/// An executable error carries exactly the values of its model.
pub open spec fn err_matches(e: ParseError, m: ErrorModel) -> bool {
    match (e, m) {
        (ParseError::AnchorNotFound(t), ErrorModel::Anchor(ts)) => t@ == ts,
        (ParseError::MalformedNumber, ErrorModel::Number) => true,
        (ParseError::EndOfInput, ErrorModel::End) => true,
        _ => false,
    }
}

/// A record either carries full alignment statistics or none: an absent
/// range forces an absent score and expect value.
pub open spec fn model_wf(m: AlignmentModel) -> bool {
    m.range is None ==> m.score is None && m.e_value is None
}

impl Alignment {
    /// A record either carries full alignment statistics or none.
    pub open spec fn wf(self) -> bool {
        self.range is None ==> self.score is None && self.e_value is None
    }
}

impl ParseError {
    /// A short description of the error, for callers that report it.
    pub fn message(&self) -> (r: String)
        ensures
            match self {
                ParseError::AnchorNotFound(t) => r@ == "anchor not found: "@ + t@,
                ParseError::MalformedNumber => r@ == "malformed number"@,
                ParseError::EndOfInput => r@ == "end of input"@,
            },
    {
        match self {
            ParseError::AnchorNotFound(t) => {
                let mut s = "anchor not found: ".to_owned();
                s.append(t.as_str());
                s
            },
            ParseError::MalformedNumber => "malformed number".to_owned(),
            ParseError::EndOfInput => "end of input".to_owned(),
        }
    }
}

} // verus!
