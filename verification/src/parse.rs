//! The record extractors: the header parser, the alignment-record
//! parser, and the document parse that runs them in sequence.
//!
//! Each executable parser is specified against a spec-level
//! interpreter over the input's character sequence
//! ([`spec_parse_header`], [`spec_parse_alignment`],
//! [`spec_parse_records`]): the interpreter names the exact cursor
//! positions (anchor occurrences, digit and whitespace runs) and the
//! exact field values, and the executable code is proved to return
//! precisely those.

use vstd::prelude::*;

use crate::model::Alignment;
use crate::model::AlignmentModel;
use crate::model::Document;
use crate::model::DocumentModel;
use crate::model::ErrorModel;
use crate::model::Header;
use crate::model::HeaderModel;
use crate::model::ParseError;
use crate::model::alignment_matches;
use crate::model::document_matches;
use crate::model::err_matches;
use crate::model::header_matches;
use crate::model::opt_pair_matches;
use crate::model::opt_text_matches;
use crate::scan::digit_run_end;
use crate::scan::digit_run_end_exec;
use crate::scan::digits_val;
use crate::scan::find_at;
use crate::scan::find_sub;
use crate::scan::is_float_lit;
use crate::scan::is_float_lit_exec;
use crate::scan::lemma_digit_run_end;
use crate::scan::occurs_at;
use crate::scan::occurs_at_exec;
use crate::scan::parse_u64_digits;
use crate::scan::space_run_end;
use crate::scan::space_run_end_exec;
use crate::scan::trim_of;
use crate::scan::trim_substring;

verus! {

/// Anchor that precedes the program name.
pub open spec fn program_anchor() -> Seq<char> {
    "Program: "@
}

/// Fixed, format-specific anchor that precedes the query length.
pub open spec fn query_anchor() -> Seq<char> {
    "Query: None ID: lcl|Query_60974(dna) Length: "@
}

/// Line terminator.
pub open spec fn nl_mark() -> Seq<char> {
    "\n"@
}

/// Record start marker.
pub open spec fn gt_mark() -> Seq<char> {
    ">"@
}

/// Anchor that ends the target name and precedes the identifier.
pub open spec fn seqid_anchor() -> Seq<char> {
    "Sequence ID: "@
}

/// Anchor that precedes the target length.
pub open spec fn length_anchor() -> Seq<char> {
    " Length:"@
}

/// A line terminator immediately followed by a record start marker:
/// the early-termination lookahead for records without statistics.
pub open spec fn nlgt_mark() -> Seq<char> {
    "\n>"@
}

/// Anchor that opens the aligned-region coordinates.
pub open spec fn range_anchor() -> Seq<char> {
    "\nRange 1: "@
}

/// Separator between the two coordinates.
pub open spec fn to_anchor() -> Seq<char> {
    " to "@
}

/// Anchor that precedes the bit score.
pub open spec fn score_anchor() -> Seq<char> {
    "Score:"@
}

/// Anchor that ends the bit score.
pub open spec fn bits_anchor() -> Seq<char> {
    " bits"@
}

/// Anchor that precedes the expect value.
pub open spec fn expect_anchor() -> Seq<char> {
    "Expect:"@
}

/// Terminator of the expect value.
pub open spec fn comma_mark() -> Seq<char> {
    ","@
}

/// The single space that ends the sequence identifier.
pub open spec fn space_mark() -> Seq<char> {
    " "@
}

/// What the header parse returns on `s`: the program name runs from
/// the end of the program anchor to the next line terminator, the
/// query anchor must follow that terminator verbatim, and the query
/// length is the maximal digit run after it.
pub open spec fn spec_parse_header(s: Seq<char>) -> Result<(HeaderModel, int), ErrorModel> {
    match find_at(s, program_anchor(), 0) {
        None => Err(ErrorModel::Anchor(program_anchor())),
        Some(p) => {
            let ps: int = p + program_anchor().len();
            match find_at(s, nl_mark(), ps) {
                None => Err(ErrorModel::Anchor(query_anchor())),
                Some(q) => {
                    if occurs_at(s, query_anchor(), q + 1) {
                        let ds: int = q + 1 + query_anchor().len();
                        let de: int = digit_run_end(s, ds);
                        if de == ds || digits_val(s.subrange(ds, de)) > u64::MAX as int {
                            Err(ErrorModel::Number)
                        } else {
                            Ok(
                                (
                                    HeaderModel {
                                        program: s.subrange(ps, q),
                                        query_length: digits_val(s.subrange(ds, de)),
                                    },
                                    de,
                                ),
                            )
                        }
                    } else {
                        Err(ErrorModel::Anchor(query_anchor()))
                    }
                },
            }
        },
    }
}

/// What the optional range parse returns at cursor `i`: the range
/// anchor must stand exactly at `i`; on any failure the cursor is
/// unchanged and no range is produced.
pub open spec fn spec_range(s: Seq<char>, i: int) -> (Option<(int, int)>, int) {
    if occurs_at(s, range_anchor(), i) {
        let d1s: int = space_run_end(s, i + range_anchor().len());
        let d1e: int = digit_run_end(s, d1s);
        if d1e > d1s && digits_val(s.subrange(d1s, d1e)) <= i64::MAX as int && occurs_at(
            s,
            to_anchor(),
            d1e,
        ) {
            let d2s: int = space_run_end(s, d1e + to_anchor().len());
            let d2e: int = digit_run_end(s, d2s);
            if d2e > d2s && digits_val(s.subrange(d2s, d2e)) <= i64::MAX as int {
                (
                    Some(
                        (digits_val(s.subrange(d1s, d1e)), digits_val(s.subrange(d2s, d2e))),
                    ),
                    d2e,
                )
            } else {
                (None, i)
            }
        } else {
            (None, i)
        }
    } else {
        (None, i)
    }
}

/// What the optional score parse returns at cursor `i`: scan forward
/// for the score anchor, capture up to the bits anchor, and accept the
/// text only if it is a floating-point literal; on any failure the
/// cursor is unchanged.
pub open spec fn spec_score(s: Seq<char>, i: int) -> (Option<Seq<char>>, int) {
    match find_at(s, score_anchor(), i) {
        None => (None, i),
        Some(k) => {
            let ts: int = k + score_anchor().len();
            match find_at(s, bits_anchor(), ts) {
                None => (None, i),
                Some(b) => {
                    if is_float_lit(s.subrange(ts, b)) {
                        (Some(s.subrange(ts, b)), b)
                    } else {
                        (None, i)
                    }
                },
            }
        },
    }
}

/// What the optional expect-value parse returns at cursor `i`: scan
/// forward for the expect anchor (the cursor commits to it once
/// found), skip whitespace, and capture up to the next comma; the text
/// must be a floating-point literal.
pub open spec fn spec_expect(s: Seq<char>, i: int) -> (Option<Seq<char>>, int) {
    match find_at(s, expect_anchor(), i) {
        None => (None, i),
        Some(e) => {
            let vs: int = space_run_end(s, e + expect_anchor().len());
            match find_at(s, comma_mark(), vs) {
                None => (None, e),
                Some(c) => {
                    if is_float_lit(s.subrange(vs, c)) {
                        (Some(s.subrange(vs, c)), c)
                    } else {
                        (None, e)
                    }
                },
            }
        },
    }
}

/// What one alignment-record parse returns at cursor `start`: the
/// record opens at the first `>` marker, the name runs from there to
/// the identifier anchor, the identifier to the next space, the length
/// follows the length anchor; a `\n>` lookahead (or a failed range
/// attempt) ends the record without statistics, and otherwise score
/// and expect value are attempted after the range.
pub open spec fn spec_parse_alignment(s: Seq<char>, start: int) -> Result<
    (AlignmentModel, int),
    ErrorModel,
> {
    match find_at(s, gt_mark(), start) {
        None => Err(ErrorModel::End),
        Some(g) => match find_at(s, seqid_anchor(), g + 1) {
            None => Err(ErrorModel::Anchor(seqid_anchor())),
            Some(q) => {
                let ids: int = q + seqid_anchor().len();
                match find_at(s, space_mark(), ids) {
                    None => Err(ErrorModel::Anchor(length_anchor())),
                    Some(sp) => {
                        if occurs_at(s, length_anchor(), sp) {
                            let ds: int = space_run_end(s, sp + length_anchor().len());
                            let de: int = digit_run_end(s, ds);
                            if de == ds || digits_val(s.subrange(ds, de)) > i32::MAX as int {
                                Err(ErrorModel::Number)
                            } else {
                                let base = AlignmentModel {
                                    name: trim_of(s.subrange(g + 1, q)),
                                    seq_id: s.subrange(ids, sp),
                                    length: digits_val(s.subrange(ds, de)),
                                    range: None,
                                    score: None,
                                    e_value: None,
                                };
                                if occurs_at(s, nlgt_mark(), de) {
                                    Ok((base, de))
                                } else {
                                    let rg = spec_range(s, de);
                                    match rg.0 {
                                        None => Ok((base, de)),
                                        Some(pair) => {
                                            let sc = spec_score(s, rg.1);
                                            let ev = spec_expect(s, sc.1);
                                            Ok(
                                                (
                                                    AlignmentModel {
                                                        name: base.name,
                                                        seq_id: base.seq_id,
                                                        length: base.length,
                                                        range: Some(pair),
                                                        score: sc.0,
                                                        e_value: ev.0,
                                                    },
                                                    ev.1,
                                                ),
                                            )
                                        },
                                    }
                                }
                            }
                        } else {
                            Err(ErrorModel::Anchor(length_anchor()))
                        }
                    },
                }
            },
        },
    }
}

/// What the record loop returns at cursor `start`: records collected
/// in cursor order until the end-of-input signal; any other failure is
/// a document-level error.
pub open spec fn spec_parse_records(s: Seq<char>, start: int) -> Result<
    Seq<AlignmentModel>,
    ErrorModel,
> {
    spec_parse_records_rec(s, start)
}

/// Recursive body of [`spec_parse_records`]; the cursor-advance guard
/// only serves termination and always holds (see
/// [`crate::laws::lemma_alignment_advances`]).
pub open spec fn spec_parse_records_rec(s: Seq<char>, start: int) -> Result<
    Seq<AlignmentModel>,
    ErrorModel,
>
    decreases s.len() - start,
{
    match spec_parse_alignment(s, start) {
        Err(ErrorModel::End) => Ok(Seq::empty()),
        Err(e) => Err(e),
        Ok((m, end)) => {
            if start < end <= s.len() {
                match spec_parse_records_rec(s, end) {
                    Ok(rest) => Ok(seq![m] + rest),
                    Err(e) => Err(e),
                }
            } else {
                Err(ErrorModel::End)
            }
        },
    }
}

/// What the whole document parse returns: the header, then the
/// records from the remaining text.
pub open spec fn spec_parse_document(s: Seq<char>) -> Result<DocumentModel, ErrorModel> {
    match spec_parse_header(s) {
        Err(e) => Err(e),
        Ok((h, end)) => match spec_parse_records(s, end) {
            Ok(ms) => Ok(DocumentModel { header: h, alignments: ms }),
            Err(e) => Err(e),
        },
    }
}

impl Header {
    /// Parse the document preamble, returning the header and the
    /// cursor position where the records begin.
    pub fn parse_at(input: &str) -> (r: Result<(Header, usize), ParseError>)
        ensures
            match (r, spec_parse_header(input@)) {
                (Ok((h, end)), Ok((m, e))) => {
                    &&& header_matches(h, m)
                    &&& end as int == e
                    &&& end <= input@.len()
                },
                (Err(e), Err(me)) => err_matches(e, me),
                _ => false,
            },
    {
        let n = input.unicode_len();
        proof {
            assert(n as int == input@.len());
        }
        let pa: &str = "Program: ";
        let qa: &str = "Query: None ID: lcl|Query_60974(dna) Length: ";
        let p = match find_sub(input, pa, 0) {
            Some(p) => p,
            None => {
                return Err(ParseError::AnchorNotFound(pa.to_owned()));
            },
        };
        let ps = p + pa.unicode_len();
        let q = match find_sub(input, "\n", ps) {
            Some(q) => q,
            None => {
                return Err(ParseError::AnchorNotFound(qa.to_owned()));
            },
        };
        proof {
            reveal_strlit("\n");
        }
        if !occurs_at_exec(input, qa, q + 1) {
            return Err(ParseError::AnchorNotFound(qa.to_owned()));
        }
        let ds = q + 1 + qa.unicode_len();
        let de = digit_run_end_exec(input, ds);
        if de == ds {
            return Err(ParseError::MalformedNumber);
        }
        proof {
            lemma_digit_run_end(input@, ds as int);
        }
        let v = match parse_u64_digits(input, ds, de) {
            Some(v) => v,
            None => {
                return Err(ParseError::MalformedNumber);
            },
        };
        let program = input.substring_char(ps, q).to_owned();
        Ok((Header { program, query_length: v }, de))
    }

    /// Parse the document preamble, returning the header and the
    /// remaining unconsumed text.
    pub fn parse(input: &str) -> (r: Result<(Header, &str), ParseError>)
        ensures
            match (r, spec_parse_header(input@)) {
                (Ok((h, rest)), Ok((m, e))) => {
                    &&& header_matches(h, m)
                    &&& rest@ == input@.subrange(e, input@.len() as int)
                },
                (Err(e), Err(me)) => err_matches(e, me),
                _ => false,
            },
    {
        match Self::parse_at(input) {
            Ok((h, end)) => Ok((h, input.substring_char(end, input.unicode_len()))),
            Err(e) => Err(e),
        }
    }
}

/// Attempt the optional aligned-region coordinates at cursor `i`.
fn parse_range_at(s: &str, i: usize) -> (r: (Option<(i64, i64)>, usize))
    requires
        i <= s@.len(),
    ensures
        opt_pair_matches(r.0, spec_range(s@, i as int).0),
        r.1 as int == spec_range(s@, i as int).1,
        i <= r.1 <= s@.len(),
        (r.0 is Some) == (spec_range(s@, i as int).0 is Some),
{
    let n = s.unicode_len();
    proof {
        assert(n as int == s@.len());
    }
    let ra: &str = "\nRange 1: ";
    let ta: &str = " to ";
    if !occurs_at_exec(s, ra, i) {
        return (None, i);
    }
    let d1s = space_run_end_exec(s, i + ra.unicode_len());
    let d1e = digit_run_end_exec(s, d1s);
    if d1e == d1s {
        return (None, i);
    }
    proof {
        lemma_digit_run_end(s@, d1s as int);
    }
    let v1 = match parse_u64_digits(s, d1s, d1e) {
        Some(v) => v,
        None => {
            return (None, i);
        },
    };
    if v1 > 9223372036854775807u64 {
        return (None, i);
    }
    if !occurs_at_exec(s, ta, d1e) {
        return (None, i);
    }
    let d2s = space_run_end_exec(s, d1e + ta.unicode_len());
    let d2e = digit_run_end_exec(s, d2s);
    if d2e == d2s {
        return (None, i);
    }
    proof {
        lemma_digit_run_end(s@, d2s as int);
    }
    let v2 = match parse_u64_digits(s, d2s, d2e) {
        Some(v) => v,
        None => {
            return (None, i);
        },
    };
    if v2 > 9223372036854775807u64 {
        return (None, i);
    }
    (Some((v1 as i64, v2 as i64)), d2e)
}

/// Attempt the optional bit score at cursor `i`.
fn parse_score_at(s: &str, i: usize) -> (r: (Option<String>, usize))
    requires
        i <= s@.len(),
    ensures
        opt_text_matches(r.0, spec_score(s@, i as int).0),
        r.1 as int == spec_score(s@, i as int).1,
        i <= r.1 <= s@.len(),
{
    let n = s.unicode_len();
    proof {
        assert(n as int == s@.len());
    }
    let sa: &str = "Score:";
    let k = match find_sub(s, sa, i) {
        Some(k) => k,
        None => {
            return (None, i);
        },
    };
    let ts = k + sa.unicode_len();
    let b = match find_sub(s, " bits", ts) {
        Some(b) => b,
        None => {
            return (None, i);
        },
    };
    let t = s.substring_char(ts, b);
    if is_float_lit_exec(t) {
        (Some(t.to_owned()), b)
    } else {
        (None, i)
    }
}

/// Attempt the optional expect value at cursor `i`.
fn parse_expect_at(s: &str, i: usize) -> (r: (Option<String>, usize))
    requires
        i <= s@.len(),
    ensures
        opt_text_matches(r.0, spec_expect(s@, i as int).0),
        r.1 as int == spec_expect(s@, i as int).1,
        i <= r.1 <= s@.len(),
{
    let n = s.unicode_len();
    proof {
        assert(n as int == s@.len());
    }
    let ea: &str = "Expect:";
    let e = match find_sub(s, ea, i) {
        Some(e) => e,
        None => {
            return (None, i);
        },
    };
    let vs = space_run_end_exec(s, e + ea.unicode_len());
    let c = match find_sub(s, ",", vs) {
        Some(c) => c,
        None => {
            return (None, e);
        },
    };
    let t = s.substring_char(vs, c);
    if is_float_lit_exec(t) {
        (Some(t.to_owned()), c)
    } else {
        (None, e)
    }
}

impl Alignment {
    /// Parse one alignment record starting at cursor `start`,
    /// returning the record and the cursor where the next parse
    /// resumes.
    pub fn parse_at(input: &str, start: usize) -> (r: Result<(Alignment, usize), ParseError>)
        requires
            start <= input@.len(),
        ensures
            match (r, spec_parse_alignment(input@, start as int)) {
                (Ok((a, end)), Ok((m, e))) => {
                    &&& alignment_matches(a, m)
                    &&& end as int == e
                    &&& start < end <= input@.len()
                },
                (Err(e), Err(me)) => err_matches(e, me),
                _ => false,
            },
            match r {
                Ok((a, _)) => a.wf(),
                Err(_) => true,
            },
    {
        let n = input.unicode_len();
        proof {
            assert(n as int == input@.len());
        }
        let sia: &str = "Sequence ID: ";
        let la: &str = " Length:";
        let g = match find_sub(input, ">", start) {
            Some(g) => g,
            None => {
                return Err(ParseError::EndOfInput);
            },
        };
        proof {
            reveal_strlit(">");
        }
        let q = match find_sub(input, sia, g + 1) {
            Some(q) => q,
            None => {
                return Err(ParseError::AnchorNotFound(sia.to_owned()));
            },
        };
        let ids = q + sia.unicode_len();
        let sp = match find_sub(input, " ", ids) {
            Some(sp) => sp,
            None => {
                return Err(ParseError::AnchorNotFound(la.to_owned()));
            },
        };
        if !occurs_at_exec(input, la, sp) {
            return Err(ParseError::AnchorNotFound(la.to_owned()));
        }
        let ds = space_run_end_exec(input, sp + la.unicode_len());
        let de = digit_run_end_exec(input, ds);
        if de == ds {
            return Err(ParseError::MalformedNumber);
        }
        proof {
            lemma_digit_run_end(input@, ds as int);
        }
        let v = match parse_u64_digits(input, ds, de) {
            Some(v) => v,
            None => {
                return Err(ParseError::MalformedNumber);
            },
        };
        if v > 2147483647u64 {
            return Err(ParseError::MalformedNumber);
        }
        let name = trim_substring(input, g + 1, q);
        let seq_id = input.substring_char(ids, sp).to_owned();
        let length = v as i32;
        if occurs_at_exec(input, "\n>", de) {
            return Ok(
                (
                    Alignment { name, seq_id, length, range: None, score: None, e_value: None },
                    de,
                ),
            );
        }
        let rg: (Option<(i64, i64)>, usize) = parse_range_at(input, de);
        match rg.0 {
            None => Ok(
                (
                    Alignment { name, seq_id, length, range: None, score: None, e_value: None },
                    de,
                ),
            ),
            Some(pair) => {
                let sc: (Option<String>, usize) = parse_score_at(input, rg.1);
                let ev: (Option<String>, usize) = parse_expect_at(input, sc.1);
                Ok(
                    (
                        Alignment {
                            name,
                            seq_id,
                            length,
                            range: Some(pair),
                            score: sc.0,
                            e_value: ev.0,
                        },
                        ev.1,
                    ),
                )
            },
        }
    }

    /// Parse one alignment record from the start of `input`, returning
    /// the record and the remaining unconsumed text.
    pub fn parse(input: &str) -> (r: Result<(Alignment, &str), ParseError>)
        ensures
            match (r, spec_parse_alignment(input@, 0)) {
                (Ok((a, rest)), Ok((m, e))) => {
                    &&& alignment_matches(a, m)
                    &&& rest@ == input@.subrange(e, input@.len() as int)
                },
                (Err(e), Err(me)) => err_matches(e, me),
                _ => false,
            },
            match r {
                Ok((a, _)) => a.wf(),
                Err(_) => true,
            },
    {
        match Self::parse_at(input, 0) {
            Ok((a, end)) => Ok((a, input.substring_char(end, input.unicode_len()))),
            Err(e) => Err(e),
        }
    }
}

impl Document {
    /// Parse a whole report: the header once, then alignment records
    /// until the end-of-input signal. A mid-record failure is a
    /// document-level error; a clean end of the record list is not.
    pub fn parse(input: &str) -> (r: Result<Document, ParseError>)
        ensures
            match (r, spec_parse_document(input@)) {
                (Ok(d), Ok(m)) => document_matches(d, m),
                (Err(e), Err(me)) => err_matches(e, me),
                _ => false,
            },
    {
        let hr = match Header::parse_at(input) {
            Ok(hr) => hr,
            Err(e) => {
                return Err(e);
            },
        };
        let header = hr.0;
        let mut pos: usize = hr.1;
        let ghost start0: int = pos as int;
        let mut alignments: Vec<Alignment> = Vec::new();
        let ghost mut ms_done: Seq<AlignmentModel> = Seq::empty();
        proof {
            if spec_parse_records(input@, start0) is Ok {
                assert(Seq::<AlignmentModel>::empty() + spec_parse_records(input@, start0)->Ok_0
                    =~= spec_parse_records(input@, start0)->Ok_0);
            }
        }
        loop
            invariant
                pos <= input@.len(),
                alignments@.len() == ms_done.len(),
                forall|i: int|
                    0 <= i < ms_done.len() ==> alignment_matches(
                        #[trigger] alignments@[i],
                        ms_done[i],
                    ),
                spec_parse_header(input@) is Ok,
                header_matches(header, spec_parse_header(input@)->Ok_0.0),
                start0 == spec_parse_header(input@)->Ok_0.1,
                match spec_parse_records(input@, pos as int) {
                    Ok(rest) => spec_parse_records(input@, start0) == Ok::<_, ErrorModel>(
                        ms_done + rest,
                    ),
                    Err(e) => spec_parse_records(input@, start0) == Err::<Seq<AlignmentModel>, _>(
                        e,
                    ),
                },
            decreases input@.len() - pos,
        {
            match Alignment::parse_at(input, pos) {
                Ok(ap) => {
                    let ghost m = spec_parse_alignment(input@, pos as int)->Ok_0.0;
                    proof {
                        if spec_parse_records(input@, ap.1 as int) is Ok {
                            let rest2 = spec_parse_records(input@, ap.1 as int)->Ok_0;
                            assert(ms_done + (seq![m] + rest2) =~= ms_done.push(m) + rest2);
                        }
                        ms_done = ms_done.push(m);
                    }
                    alignments.push(ap.0);
                    pos = ap.1;
                },
                Err(e) => {
                    match e {
                        ParseError::EndOfInput => {
                            proof {
                                assert(ms_done + Seq::<AlignmentModel>::empty() =~= ms_done);
                            }
                            return Ok(Document { header, alignments });
                        },
                        _ => {
                            return Err(e);
                        },
                    }
                },
            }
        }
    }
}

} // verus!
