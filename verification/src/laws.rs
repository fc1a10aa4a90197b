//! Laws of the parser, proved from the spec-level interpreters in
//! [`crate::parse`]: every successful record parse advances past
//! exactly one opening marker, record order follows the textual order
//! of the markers, the record count is bounded by the marker count,
//! and a record carries either full alignment statistics or none.

use vstd::prelude::*;

use crate::model::AlignmentModel;
use crate::model::ErrorModel;
use crate::model::model_wf;
use crate::parse::bits_anchor;
use crate::parse::comma_mark;
use crate::parse::expect_anchor;
use crate::parse::gt_mark;
use crate::parse::length_anchor;
use crate::parse::nl_mark;
use crate::parse::program_anchor;
use crate::parse::query_anchor;
use crate::parse::range_anchor;
use crate::parse::score_anchor;
use crate::parse::seqid_anchor;
use crate::parse::space_mark;
use crate::parse::spec_expect;
use crate::parse::spec_parse_alignment;
use crate::parse::spec_parse_document;
use crate::parse::spec_parse_header;
use crate::parse::spec_parse_records;
use crate::parse::spec_range;
use crate::parse::spec_score;
use crate::parse::to_anchor;
use crate::parse::nlgt_mark;
use crate::scan::count_char;
use crate::scan::digits_val;
use crate::scan::is_digit_char;
use crate::scan::is_float_char;
use crate::scan::is_float_lit;
use crate::scan::is_space_char;
use crate::scan::lemma_digit_run_end_exact;
use crate::scan::lemma_find_at_exact;
use crate::scan::lemma_float_lit_chars;
use crate::scan::lemma_occurs_at_subrange;
use crate::scan::lemma_space_run_end_exact;
use crate::scan::no_early_occurrence;
use crate::scan::trim_of;
use crate::scan::digit_run_end;
use crate::scan::find_at;
use crate::scan::lemma_count_char_at;
use crate::scan::lemma_count_char_concat;
use crate::scan::lemma_count_char_split;
use crate::scan::lemma_count_char_zero;
use crate::scan::lemma_find_at_none;
use crate::scan::lemma_digit_run_end;
use crate::scan::lemma_find_at_some;
use crate::scan::lemma_space_run_end;
use crate::scan::occurs_at;
use crate::scan::space_run_end;

verus! {

/// The optional range parse never moves the cursor backwards or past
/// the end of the text.
pub proof fn lemma_spec_range_bounds(s: Seq<char>, i: int)
    requires
        0 <= i <= s.len(),
    ensures
        i <= spec_range(s, i).1 <= s.len(),
{
    if occurs_at(s, range_anchor(), i) {
        lemma_space_run_end(s, i + range_anchor().len());
        let d1s = space_run_end(s, i + range_anchor().len());
        lemma_digit_run_end(s, d1s);
        let d1e = digit_run_end(s, d1s);
        if occurs_at(s, to_anchor(), d1e) {
            lemma_space_run_end(s, d1e + to_anchor().len());
            let d2s = space_run_end(s, d1e + to_anchor().len());
            lemma_digit_run_end(s, d2s);
        }
    }
}

/// The optional score parse never moves the cursor backwards or past
/// the end of the text.
pub proof fn lemma_spec_score_bounds(s: Seq<char>, i: int)
    requires
        0 <= i <= s.len(),
    ensures
        i <= spec_score(s, i).1 <= s.len(),
{
    match find_at(s, score_anchor(), i) {
        None => {},
        Some(k) => {
            lemma_find_at_some(s, score_anchor(), i, k);
            let ts = k + score_anchor().len();
            match find_at(s, bits_anchor(), ts) {
                None => {},
                Some(b) => {
                    lemma_find_at_some(s, bits_anchor(), ts, b);
                },
            }
        },
    }
}

/// The optional expect-value parse never moves the cursor backwards
/// or past the end of the text.
pub proof fn lemma_spec_expect_bounds(s: Seq<char>, i: int)
    requires
        0 <= i <= s.len(),
    ensures
        i <= spec_expect(s, i).1 <= s.len(),
{
    match find_at(s, expect_anchor(), i) {
        None => {},
        Some(e) => {
            lemma_find_at_some(s, expect_anchor(), i, e);
            lemma_space_run_end(s, e + expect_anchor().len());
            let vs = space_run_end(s, e + expect_anchor().len());
            match find_at(s, comma_mark(), vs) {
                None => {},
                Some(c) => {
                    lemma_find_at_some(s, comma_mark(), vs, c);
                },
            }
        },
    }
}

/// A successful header parse leaves the cursor inside the text.
pub proof fn lemma_header_end_bounds(s: Seq<char>)
    requires
        spec_parse_header(s) is Ok,
    ensures
        0 <= spec_parse_header(s)->Ok_0.1 <= s.len(),
{
    let p = find_at(s, program_anchor(), 0)->Some_0;
    lemma_find_at_some(s, program_anchor(), 0, p);
    let ps = p + program_anchor().len();
    let q = find_at(s, nl_mark(), ps)->Some_0;
    lemma_find_at_some(s, nl_mark(), ps, q);
    let ds = q + 1 + query_anchor().len();
    lemma_digit_run_end(s, ds);
}

/// A successful record parse opens at the first marker at or after
/// `start` and advances strictly past it, never past the end of the
/// text.
pub proof fn lemma_alignment_advances(s: Seq<char>, start: int)
    requires
        0 <= start <= s.len(),
        spec_parse_alignment(s, start) is Ok,
    ensures
        start < spec_parse_alignment(s, start)->Ok_0.1 <= s.len(),
        find_at(s, gt_mark(), start) is Some,
        start <= find_at(s, gt_mark(), start)->Some_0 < spec_parse_alignment(s, start)->Ok_0.1,
        s[find_at(s, gt_mark(), start)->Some_0] == '>',
{
    reveal_strlit(">");
    let g = find_at(s, gt_mark(), start)->Some_0;
    lemma_find_at_some(s, gt_mark(), start, g);
    assert(s[g] == gt_mark()[0]);
    let q = find_at(s, seqid_anchor(), g + 1)->Some_0;
    lemma_find_at_some(s, seqid_anchor(), g + 1, q);
    let ids = q + seqid_anchor().len();
    let sp = find_at(s, space_mark(), ids)->Some_0;
    lemma_find_at_some(s, space_mark(), ids, sp);
    lemma_space_run_end(s, sp + length_anchor().len());
    let ds = space_run_end(s, sp + length_anchor().len());
    lemma_digit_run_end(s, ds);
    let de = digit_run_end(s, ds);
    lemma_spec_range_bounds(s, de);
    lemma_spec_score_bounds(s, spec_range(s, de).1);
    lemma_spec_expect_bounds(s, spec_score(s, spec_range(s, de).1).1);
}

/// A record either carries full alignment statistics or none: if the
/// range is absent from a parsed record, its score and expect value
/// are absent as well.
pub proof fn lemma_range_none_all_none(s: Seq<char>, start: int)
    requires
        spec_parse_alignment(s, start) is Ok,
    ensures
        model_wf(spec_parse_alignment(s, start)->Ok_0.0),
{
}

/// The sequence identifier of a parsed record contains no space: it
/// is captured up to the first space after the identifier anchor.
pub proof fn lemma_seq_id_no_space(s: Seq<char>, start: int)
    requires
        0 <= start <= s.len(),
        spec_parse_alignment(s, start) is Ok,
    ensures
        forall|k: int|
            0 <= k < spec_parse_alignment(s, start)->Ok_0.0.seq_id.len()
                ==> spec_parse_alignment(s, start)->Ok_0.0.seq_id[k] != ' ',
{
    reveal_strlit(" ");
    let g = find_at(s, gt_mark(), start)->Some_0;
    let q = find_at(s, seqid_anchor(), g + 1)->Some_0;
    let ids = q + seqid_anchor().len();
    let sp = find_at(s, space_mark(), ids)->Some_0;
    lemma_find_at_some(s, space_mark(), ids, sp);
    let sid = spec_parse_alignment(s, start)->Ok_0.0.seq_id;
    assert(sid == s.subrange(ids, sp));
    assert forall|k: int| 0 <= k < sid.len() implies sid[k] != ' ' by {
        assert(!occurs_at(s, space_mark(), ids + k));
    }
}

/// Every successful record parse consumes at least the marker that
/// opened it.
pub proof fn lemma_record_consumes_marker(s: Seq<char>, start: int)
    requires
        0 <= start <= s.len(),
        spec_parse_alignment(s, start) is Ok,
    ensures
        count_char(
            s.subrange(start, spec_parse_alignment(s, start)->Ok_0.1),
            '>',
        ) >= 1,
{
    lemma_alignment_advances(s, start);
    let g = find_at(s, gt_mark(), start)->Some_0;
    let end = spec_parse_alignment(s, start)->Ok_0.1;
    let sub = s.subrange(start, end);
    assert(sub[g - start] == '>');
    lemma_count_char_at(sub, '>', g - start);
}

/// The record loop never produces more records than the remaining
/// text holds `>` markers: each record opens at exactly one.
pub proof fn lemma_records_bounded_by_markers(s: Seq<char>, start: int)
    requires
        0 <= start <= s.len(),
        spec_parse_records(s, start) is Ok,
    ensures
        spec_parse_records(s, start)->Ok_0.len() <= count_char(
            s.subrange(start, s.len() as int),
            '>',
        ),
    decreases s.len() - start,
{
    match spec_parse_alignment(s, start) {
        Err(_) => {},
        Ok((m, end)) => {
            lemma_alignment_advances(s, start);
            lemma_record_consumes_marker(s, start);
            lemma_records_bounded_by_markers(s, end);
            assert(s.subrange(start, s.len() as int) =~= s.subrange(start, end) + s.subrange(
                end,
                s.len() as int,
            ));
            lemma_count_char_concat(s.subrange(start, end), s.subrange(end, s.len() as int), '>');
        },
    }
}

/// Document-level bound: a parsed document holds at most as many
/// alignments as the whole buffer holds `>` markers.
pub proof fn lemma_document_alignment_count(s: Seq<char>)
    requires
        spec_parse_document(s) is Ok,
    ensures
        spec_parse_document(s)->Ok_0.alignments.len() <= count_char(s, '>'),
{
    lemma_header_end_bounds(s);
    let end = spec_parse_header(s)->Ok_0.1;
    lemma_records_bounded_by_markers(s, end);
    lemma_count_char_split(s, '>', end);
}

/// The cursor position at which each record's parse ended, in record
/// order.
pub open spec fn record_ends(s: Seq<char>, start: int) -> Seq<int>
    decreases s.len() - start,
{
    match spec_parse_alignment(s, start) {
        Err(_) => Seq::empty(),
        Ok((m, end)) => {
            if start < end <= s.len() {
                seq![end] + record_ends(s, end)
            } else {
                Seq::empty()
            }
        },
    }
}

/// Each record has one marker position and one end position.
proof fn lemma_markers_ends_len(s: Seq<char>, start: int)
    ensures
        record_markers(s, start).len() == record_ends(s, start).len(),
    decreases s.len() - start,
{
    match spec_parse_alignment(s, start) {
        Err(_) => {},
        Ok((m, end)) => {
            if start < end <= s.len() {
                lemma_markers_ends_len(s, end);
            }
        },
    }
}

/// The record count is exact on well-formed text: where no stray `>`
/// stands inside a record's consumed body (between its marker and the
/// cursor where its parse ended), the number of records produced
/// equals the number of `>` markers in the text the record loop was
/// given — each marker opens exactly one record.
pub proof fn lemma_record_count_exact(s: Seq<char>, start: int)
    requires
        0 <= start <= s.len(),
        spec_parse_records(s, start) is Ok,
        forall|i: int|
            0 <= i < record_markers(s, start).len() ==> count_char(
                s.subrange(#[trigger] record_markers(s, start)[i] + 1, record_ends(s, start)[i]),
                '>',
            ) == 0,
    ensures
        spec_parse_records(s, start)->Ok_0.len() == count_char(
            s.subrange(start, s.len() as int),
            '>',
        ),
    decreases s.len() - start,
{
    reveal_strlit(">");
    match spec_parse_alignment(s, start) {
        Err(e) => {
            lemma_find_at_none(s, gt_mark(), start);
            let sub = s.subrange(start, s.len() as int);
            assert forall|j: int| 0 <= j < sub.len() implies sub[j] != '>' by {
                assert(!occurs_at(s, gt_mark(), start + j));
            }
            lemma_count_char_zero(sub, '>');
        },
        Ok((m, end)) => {
            lemma_alignment_advances(s, start);
            let g = find_at(s, gt_mark(), start)->Some_0;
            lemma_find_at_some(s, gt_mark(), start, g);
            let markers = record_markers(s, start);
            let ends = record_ends(s, start);
            let tm = record_markers(s, end);
            let te = record_ends(s, end);
            assert(markers =~= seq![g] + tm);
            assert(ends =~= seq![end] + te);
            lemma_markers_ends_len(s, end);
            assert forall|i: int|
                0 <= i < tm.len() implies count_char(
                    s.subrange(#[trigger] tm[i] + 1, te[i]),
                    '>',
                ) == 0 by {
                assert(markers[i + 1] == tm[i]);
                assert(ends[i + 1] == te[i]);
                assert(count_char(s.subrange(markers[i + 1] + 1, ends[i + 1]), '>') == 0);
            }
            lemma_record_count_exact(s, end);
            let pre = s.subrange(start, g);
            assert forall|j: int| 0 <= j < pre.len() implies pre[j] != '>' by {
                assert(!occurs_at(s, gt_mark(), start + j));
            }
            lemma_count_char_zero(pre, '>');
            assert(s.subrange(g, g + 1).len() == 1);
            assert(s.subrange(g, g + 1).last() == '>');
            assert(s.subrange(g, g + 1).drop_last() =~= Seq::<char>::empty());
            assert(count_char(Seq::<char>::empty(), '>') == 0);
            assert(count_char(s.subrange(g, g + 1), '>') == 1);
            assert(markers[0] == g && ends[0] == end);
            assert(count_char(s.subrange(g + 1, end), '>') == 0);
            assert(s.subrange(start, end) =~= s.subrange(start, g) + s.subrange(g, end));
            lemma_count_char_concat(s.subrange(start, g), s.subrange(g, end), '>');
            assert(s.subrange(g, end) =~= s.subrange(g, g + 1) + s.subrange(g + 1, end));
            lemma_count_char_concat(s.subrange(g, g + 1), s.subrange(g + 1, end), '>');
            assert(s.subrange(start, s.len() as int) =~= s.subrange(start, end) + s.subrange(
                end,
                s.len() as int,
            ));
            lemma_count_char_concat(s.subrange(start, end), s.subrange(end, s.len() as int), '>');
        },
    }
}

/// The marker position of each record, in the order the records are
/// produced by the record loop.
pub open spec fn record_markers(s: Seq<char>, start: int) -> Seq<int>
    decreases s.len() - start,
{
    match spec_parse_alignment(s, start) {
        Err(_) => Seq::empty(),
        Ok((m, end)) => {
            if start < end <= s.len() {
                seq![find_at(s, gt_mark(), start)->Some_0] + record_markers(s, end)
            } else {
                Seq::empty()
            }
        },
    }
}

/// All marker positions lie at or after the cursor the loop started
/// from.
pub proof fn lemma_record_markers_ge(s: Seq<char>, start: int)
    requires
        0 <= start <= s.len(),
    ensures
        forall|i: int|
            0 <= i < record_markers(s, start).len() ==> #[trigger] record_markers(s, start)[i]
                >= start,
    decreases s.len() - start,
{
    match spec_parse_alignment(s, start) {
        Err(_) => {},
        Ok((m, end)) => {
            if start < end <= s.len() {
                lemma_alignment_advances(s, start);
                lemma_record_markers_ge(s, end);
                let g = find_at(s, gt_mark(), start)->Some_0;
                let ms = record_markers(s, start);
                let tail = record_markers(s, end);
                assert(ms =~= seq![g] + tail);
                assert forall|i: int| 0 <= i < ms.len() implies #[trigger] ms[i] >= start by {
                    if i > 0 {
                        assert(ms[i] == tail[i - 1]);
                    }
                }
            }
        },
    }
}

/// Record order equals textual order: each record opens at a `>`
/// marker, the marker positions are strictly increasing in the order
/// the records are produced, and when the record loop succeeds there
/// is exactly one marker position per record.
pub proof fn lemma_record_order(s: Seq<char>, start: int)
    requires
        0 <= start <= s.len(),
    ensures
        forall|i: int|
            0 <= i < record_markers(s, start).len() ==> 0 <= #[trigger] record_markers(s, start)[i]
                < s.len() && s[record_markers(s, start)[i]] == '>',
        forall|i: int, j: int|
            0 <= i < j < record_markers(s, start).len() ==> #[trigger] record_markers(s, start)[i]
                < #[trigger] record_markers(s, start)[j],
        spec_parse_records(s, start) is Ok ==> record_markers(s, start).len()
            == spec_parse_records(s, start)->Ok_0.len(),
    decreases s.len() - start,
{
    match spec_parse_alignment(s, start) {
        Err(_) => {},
        Ok((m, end)) => {
            lemma_alignment_advances(s, start);
            let g = find_at(s, gt_mark(), start)->Some_0;
            lemma_record_order(s, end);
            lemma_record_markers_ge(s, end);
            let ms = record_markers(s, start);
            let tail = record_markers(s, end);
            assert(ms =~= seq![g] + tail);
            assert forall|i: int, j: int| 0 <= i < j < ms.len() implies #[trigger] ms[i]
                < #[trigger] ms[j] by {
                if i == 0 {
                    assert(ms[j] == tail[j - 1]);
                    assert(tail[j - 1] >= end);
                } else {
                    assert(ms[i] == tail[i - 1]);
                    assert(ms[j] == tail[j - 1]);
                }
            }
        },
    }
}

/// The text of one record with every optional field present, built
/// from its parts: the raw name region, the identifier, the digit
/// runs of the target length and the two coordinates, and the literal
/// texts of the bit score and the expect value.
pub open spec fn render_record(
    name: Seq<char>,
    id: Seq<char>,
    len_d: Seq<char>,
    r1_d: Seq<char>,
    r2_d: Seq<char>,
    sc: Seq<char>,
    ev: Seq<char>,
) -> Seq<char> {
    gt_mark() + name + seqid_anchor() + id + " Length: "@ + len_d + range_anchor() + r1_d
        + to_anchor() + r2_d + "\nScore:"@ + sc + " bits, Expect:"@ + ev + comma_mark()
}

/// Where each part of a rendered record stands in the text.
proof fn lemma_render_positions(
    t: Seq<char>,
    name: Seq<char>,
    id: Seq<char>,
    len_d: Seq<char>,
    r1_d: Seq<char>,
    r2_d: Seq<char>,
    sc: Seq<char>,
    ev: Seq<char>,
)
    requires
        t == render_record(name, id, len_d, r1_d, r2_d, sc, ev),
    ensures
        t.len() == 59 + name.len() + id.len() + len_d.len() + r1_d.len() + r2_d.len() + sc.len()
            + ev.len(),
        t[0] == '>',
        forall|j: int| 1 <= j < 1 + name.len() ==> #[trigger] t[j] == name[j - 1],
        forall|j: int|
            1 + name.len() <= j < 14 + name.len() ==> #[trigger] t[j] == seqid_anchor()[j - 1
                - name.len()],
        forall|j: int|
            14 + name.len() <= j < 14 + name.len() + id.len() ==> #[trigger] t[j] == id[j - 14
                - name.len()],
        forall|j: int|
            14 + name.len() + id.len() <= j < 23 + name.len() + id.len() ==> #[trigger] t[j]
                == " Length: "@[j - 14 - name.len() - id.len()],
        forall|j: int|
            23 + name.len() + id.len() <= j < 23 + name.len() + id.len() + len_d.len()
                ==> #[trigger] t[j] == len_d[j - 23 - name.len() - id.len()],
        forall|j: int|
            23 + name.len() + id.len() + len_d.len() <= j < 33 + name.len() + id.len()
                + len_d.len() ==> #[trigger] t[j] == range_anchor()[j - 23 - name.len() - id.len()
                - len_d.len()],
        forall|j: int|
            33 + name.len() + id.len() + len_d.len() <= j < 33 + name.len() + id.len()
                + len_d.len() + r1_d.len() ==> #[trigger] t[j] == r1_d[j - 33 - name.len()
                - id.len() - len_d.len()],
        forall|j: int|
            33 + name.len() + id.len() + len_d.len() + r1_d.len() <= j < 37 + name.len()
                + id.len() + len_d.len() + r1_d.len() ==> #[trigger] t[j] == to_anchor()[j - 33
                - name.len() - id.len() - len_d.len() - r1_d.len()],
        forall|j: int|
            37 + name.len() + id.len() + len_d.len() + r1_d.len() <= j < 37 + name.len()
                + id.len() + len_d.len() + r1_d.len() + r2_d.len() ==> #[trigger] t[j] == r2_d[j
                - 37 - name.len() - id.len() - len_d.len() - r1_d.len()],
        forall|j: int|
            37 + name.len() + id.len() + len_d.len() + r1_d.len() + r2_d.len() <= j < 44
                + name.len() + id.len() + len_d.len() + r1_d.len() + r2_d.len() ==> #[trigger] t[j]
                == "\nScore:"@[j - 37 - name.len() - id.len() - len_d.len() - r1_d.len()
                - r2_d.len()],
        forall|j: int|
            44 + name.len() + id.len() + len_d.len() + r1_d.len() + r2_d.len() <= j < 44
                + name.len() + id.len() + len_d.len() + r1_d.len() + r2_d.len() + sc.len()
                ==> #[trigger] t[j] == sc[j - 44 - name.len() - id.len() - len_d.len()
                - r1_d.len() - r2_d.len()],
        forall|j: int|
            44 + name.len() + id.len() + len_d.len() + r1_d.len() + r2_d.len() + sc.len() <= j
                < 58 + name.len() + id.len() + len_d.len() + r1_d.len() + r2_d.len() + sc.len()
                ==> #[trigger] t[j] == " bits, Expect:"@[j - 44 - name.len() - id.len()
                - len_d.len() - r1_d.len() - r2_d.len() - sc.len()],
        forall|j: int|
            58 + name.len() + id.len() + len_d.len() + r1_d.len() + r2_d.len() + sc.len() <= j
                < 58 + name.len() + id.len() + len_d.len() + r1_d.len() + r2_d.len() + sc.len()
                + ev.len() ==> #[trigger] t[j] == ev[j - 58 - name.len() - id.len() - len_d.len()
                - r1_d.len() - r2_d.len() - sc.len()],
        t[t.len() - 1] == ',',
{
    reveal_strlit(">");
    reveal_strlit("Sequence ID: ");
    reveal_strlit(" Length: ");
    reveal_strlit("\nRange 1: ");
    reveal_strlit(" to ");
    reveal_strlit("\nScore:");
    reveal_strlit(" bits, Expect:");
    reveal_strlit(",");
}

/// The mandatory prefix of a rendered record parses at the intended
/// positions: the marker, the name region, the identifier, and the
/// target-length digit run.
#[verifier::rlimit(100)]
proof fn lemma_round_trip_prefix(
    t: Seq<char>,
    name: Seq<char>,
    id: Seq<char>,
    len_d: Seq<char>,
    r1_d: Seq<char>,
    r2_d: Seq<char>,
    sc: Seq<char>,
    ev: Seq<char>,
    q: int,
    ids: int,
    sp: int,
    ds: int,
    de: int,
)
    requires
        t == render_record(name, id, len_d, r1_d, r2_d, sc, ev),
        no_early_occurrence(name, seqid_anchor()),
        forall|k: int| 0 <= k < id.len() ==> id[k] != ' ',
        len_d.len() > 0,
        forall|k: int| 0 <= k < len_d.len() ==> is_digit_char(#[trigger] len_d[k]),
        q == 1 + name.len(),
        ids == q + 13,
        sp == ids + id.len(),
        ds == sp + 9,
        de == ds + len_d.len(),
    ensures
        t.len() == 59 + name.len() + id.len() + len_d.len() + r1_d.len() + r2_d.len() + sc.len()
            + ev.len(),
        find_at(t, gt_mark(), 0) == Some(0int),
        find_at(t, seqid_anchor(), 1) == Some(q),
        find_at(t, space_mark(), ids) == Some(sp),
        occurs_at(t, length_anchor(), sp),
        space_run_end(t, sp + 8) == ds,
        digit_run_end(t, ds) == de,
        t.subrange(ds, de) == len_d,
        !occurs_at(t, nlgt_mark(), de),
        t.subrange(1, q) == name,
        t.subrange(ids, sp) == id,
{
    reveal_strlit(">");
    reveal_strlit("\n>");
    reveal_strlit("Sequence ID: ");
    reveal_strlit(" ");
    reveal_strlit(" Length:");
    reveal_strlit(" Length: ");
    reveal_strlit("\nRange 1: ");
    lemma_render_positions(t, name, id, len_d, r1_d, r2_d, sc, ev);
    assert(occurs_at(t, gt_mark(), 0));
    lemma_find_at_exact(t, gt_mark(), 0, 0);
    assert(occurs_at(t, seqid_anchor(), q));
    assert(t.subrange(1, ids) =~= name + seqid_anchor());
    assert forall|j: int| 1 <= j < q implies !occurs_at(t, seqid_anchor(), j) by {
        lemma_occurs_at_subrange(t, seqid_anchor(), 1, ids, j);
    }
    lemma_find_at_exact(t, seqid_anchor(), 1, q);
    assert(occurs_at(t, space_mark(), sp));
    assert forall|j: int| ids <= j < sp implies !occurs_at(t, space_mark(), j) by {
        if occurs_at(t, space_mark(), j) {
            assert(t[j] == space_mark()[0]);
            assert(t[j] == id[j - ids]);
        }
    }
    lemma_find_at_exact(t, space_mark(), ids, sp);
    assert(occurs_at(t, length_anchor(), sp));
    assert(is_space_char(t[sp + 8]));
    assert(!is_space_char(t[ds]));
    lemma_space_run_end_exact(t, sp + 8, ds);
    assert(!is_digit_char(t[de]));
    lemma_digit_run_end_exact(t, ds, de);
    assert(t.subrange(ds, de) =~= len_d);
    if occurs_at(t, nlgt_mark(), de) {
        assert(t[de + 1] == nlgt_mark()[1]);
        assert(t[de + 1] == range_anchor()[1]);
    }
    assert(t.subrange(1, q) =~= name);
    assert(t.subrange(ids, sp) =~= id);
}

/// The coordinate block of a rendered record parses to exactly the
/// two digit-run values.
proof fn lemma_round_trip_range(
    t: Seq<char>,
    name: Seq<char>,
    id: Seq<char>,
    len_d: Seq<char>,
    r1_d: Seq<char>,
    r2_d: Seq<char>,
    sc: Seq<char>,
    ev: Seq<char>,
    de: int,
    d1s: int,
    d1e: int,
    d2s: int,
    d2e: int,
)
    requires
        t == render_record(name, id, len_d, r1_d, r2_d, sc, ev),
        r1_d.len() > 0,
        forall|k: int| 0 <= k < r1_d.len() ==> is_digit_char(#[trigger] r1_d[k]),
        digits_val(r1_d) <= i64::MAX as int,
        r2_d.len() > 0,
        forall|k: int| 0 <= k < r2_d.len() ==> is_digit_char(#[trigger] r2_d[k]),
        digits_val(r2_d) <= i64::MAX as int,
        de == 23 + name.len() + id.len() + len_d.len(),
        d1s == de + 10,
        d1e == d1s + r1_d.len(),
        d2s == d1e + 4,
        d2e == d2s + r2_d.len(),
    ensures
        spec_range(t, de) == (Some((digits_val(r1_d), digits_val(r2_d))), d2e),
{
    reveal_strlit("\nRange 1: ");
    reveal_strlit(" to ");
    reveal_strlit("\nScore:");
    lemma_render_positions(t, name, id, len_d, r1_d, r2_d, sc, ev);
    assert(occurs_at(t, range_anchor(), de));
    assert(!is_space_char(t[d1s]));
    lemma_space_run_end_exact(t, d1s, d1s);
    assert(!is_digit_char(t[d1e]));
    lemma_digit_run_end_exact(t, d1s, d1e);
    assert(t.subrange(d1s, d1e) =~= r1_d);
    assert(occurs_at(t, to_anchor(), d1e));
    assert(!is_space_char(t[d2s]));
    lemma_space_run_end_exact(t, d2s, d2s);
    assert(!is_digit_char(t[d2e]));
    lemma_digit_run_end_exact(t, d2s, d2e);
    assert(t.subrange(d2s, d2e) =~= r2_d);
}

/// The score block of a rendered record parses to exactly the score
/// text.
proof fn lemma_round_trip_score(
    t: Seq<char>,
    name: Seq<char>,
    id: Seq<char>,
    len_d: Seq<char>,
    r1_d: Seq<char>,
    r2_d: Seq<char>,
    sc: Seq<char>,
    ev: Seq<char>,
    d2e: int,
    ts: int,
    bpos: int,
)
    requires
        t == render_record(name, id, len_d, r1_d, r2_d, sc, ev),
        is_float_lit(sc),
        d2e == 37 + name.len() + id.len() + len_d.len() + r1_d.len() + r2_d.len(),
        ts == d2e + 7,
        bpos == ts + sc.len(),
    ensures
        spec_score(t, d2e) == (Some(sc), bpos),
{
    reveal_strlit("\nScore:");
    reveal_strlit("Score:");
    reveal_strlit(" bits");
    reveal_strlit(" bits, Expect:");
    lemma_render_positions(t, name, id, len_d, r1_d, r2_d, sc, ev);
    lemma_float_lit_chars(sc);
    assert(occurs_at(t, score_anchor(), d2e + 1));
    assert forall|j: int| d2e <= j < d2e + 1 implies !occurs_at(t, score_anchor(), j) by {
        if occurs_at(t, score_anchor(), j) {
            assert(t[j] == score_anchor()[0]);
            assert(t[j] == "\nScore:"@[0]);
        }
    }
    lemma_find_at_exact(t, score_anchor(), d2e, d2e + 1);
    assert(occurs_at(t, bits_anchor(), bpos));
    assert forall|j: int| ts <= j < bpos implies !occurs_at(t, bits_anchor(), j) by {
        if occurs_at(t, bits_anchor(), j) {
            assert(t[j] == bits_anchor()[0]);
            assert(is_float_char(t[j]));
        }
    }
    lemma_find_at_exact(t, bits_anchor(), ts, bpos);
    assert(t.subrange(ts, bpos) =~= sc);
}

/// The expect block of a rendered record parses to exactly the
/// expect-value text.
proof fn lemma_round_trip_expect(
    t: Seq<char>,
    name: Seq<char>,
    id: Seq<char>,
    len_d: Seq<char>,
    r1_d: Seq<char>,
    r2_d: Seq<char>,
    sc: Seq<char>,
    ev: Seq<char>,
    bpos: int,
    epos: int,
    vs: int,
    cpos: int,
)
    requires
        t == render_record(name, id, len_d, r1_d, r2_d, sc, ev),
        is_float_lit(ev),
        bpos == 44 + name.len() + id.len() + len_d.len() + r1_d.len() + r2_d.len() + sc.len(),
        epos == bpos + 7,
        vs == epos + 7,
        cpos == vs + ev.len(),
    ensures
        spec_expect(t, bpos) == (Some(ev), cpos),
{
    reveal_strlit(" bits, Expect:");
    reveal_strlit("Expect:");
    reveal_strlit(",");
    lemma_render_positions(t, name, id, len_d, r1_d, r2_d, sc, ev);
    lemma_float_lit_chars(ev);
    assert(occurs_at(t, expect_anchor(), epos));
    assert forall|j: int| bpos <= j < epos implies !occurs_at(t, expect_anchor(), j) by {
        if occurs_at(t, expect_anchor(), j) {
            assert(t[j] == expect_anchor()[0]);
            assert(t[j] == " bits, Expect:"@[j - bpos]);
        }
    }
    lemma_find_at_exact(t, expect_anchor(), bpos, epos);
    assert(!is_space_char(t[vs]));
    lemma_space_run_end_exact(t, vs, vs);
    assert(occurs_at(t, comma_mark(), cpos));
    assert forall|j: int| vs <= j < cpos implies !occurs_at(t, comma_mark(), j) by {
        if occurs_at(t, comma_mark(), j) {
            assert(t[j] == comma_mark()[0]);
            assert(is_float_char(t[j]));
        }
    }
    lemma_find_at_exact(t, comma_mark(), vs, cpos);
    assert(t.subrange(vs, cpos) =~= ev);
}

/// Assembling the pieces: with every anchor found at its intended
/// position, the record parse returns exactly the rendered values.
proof fn lemma_round_trip_combine(
    t: Seq<char>,
    name: Seq<char>,
    id: Seq<char>,
    len_d: Seq<char>,
    r1_d: Seq<char>,
    r2_d: Seq<char>,
    sc: Seq<char>,
    ev: Seq<char>,
    q: int,
    ids: int,
    sp: int,
    ds: int,
    de: int,
    d2e: int,
    bpos: int,
    cpos: int,
)
    requires
        q == 1 + name.len(),
        ids == q + 13,
        sp == ids + id.len(),
        ds == sp + 9,
        de == ds + len_d.len(),
        len_d.len() > 0,
        digits_val(len_d) <= i32::MAX as int,
        t.len() == cpos + 1,
        find_at(t, gt_mark(), 0) == Some(0int),
        find_at(t, seqid_anchor(), 1) == Some(q),
        find_at(t, space_mark(), ids) == Some(sp),
        occurs_at(t, length_anchor(), sp),
        space_run_end(t, sp + 8) == ds,
        digit_run_end(t, ds) == de,
        t.subrange(ds, de) == len_d,
        !occurs_at(t, nlgt_mark(), de),
        t.subrange(1, q) == name,
        t.subrange(ids, sp) == id,
        spec_range(t, de) == (Some((digits_val(r1_d), digits_val(r2_d))), d2e),
        spec_score(t, d2e) == (Some(sc), bpos),
        spec_expect(t, bpos) == (Some(ev), cpos),
    ensures
        spec_parse_alignment(t, 0) == Ok::<_, ErrorModel>(
            (
                AlignmentModel {
                    name: trim_of(name),
                    seq_id: id,
                    length: digits_val(len_d),
                    range: Some((digits_val(r1_d), digits_val(r2_d))),
                    score: Some(sc),
                    e_value: Some(ev),
                },
                cpos,
            ),
        ),
{
    reveal_strlit("Sequence ID: ");
    reveal_strlit(" Length:");
}

/// Round trip: feeding the parser a record with all optional fields
/// present recovers exactly the literal values present in the source
/// text — the trimmed name region, the identifier, the values of the
/// three digit runs, and the score and expect-value texts themselves.
#[verifier::rlimit(100)]
pub proof fn lemma_record_round_trip(
    name: Seq<char>,
    id: Seq<char>,
    len_d: Seq<char>,
    r1_d: Seq<char>,
    r2_d: Seq<char>,
    sc: Seq<char>,
    ev: Seq<char>,
)
    requires
        no_early_occurrence(name, seqid_anchor()),
        forall|k: int| 0 <= k < id.len() ==> id[k] != ' ',
        len_d.len() > 0,
        forall|k: int| 0 <= k < len_d.len() ==> is_digit_char(#[trigger] len_d[k]),
        digits_val(len_d) <= i32::MAX as int,
        r1_d.len() > 0,
        forall|k: int| 0 <= k < r1_d.len() ==> is_digit_char(#[trigger] r1_d[k]),
        digits_val(r1_d) <= i64::MAX as int,
        r2_d.len() > 0,
        forall|k: int| 0 <= k < r2_d.len() ==> is_digit_char(#[trigger] r2_d[k]),
        digits_val(r2_d) <= i64::MAX as int,
        is_float_lit(sc),
        is_float_lit(ev),
    ensures
        spec_parse_alignment(render_record(name, id, len_d, r1_d, r2_d, sc, ev), 0) == Ok::<
            _,
            ErrorModel,
        >(
            (
                AlignmentModel {
                    name: trim_of(name),
                    seq_id: id,
                    length: digits_val(len_d),
                    range: Some((digits_val(r1_d), digits_val(r2_d))),
                    score: Some(sc),
                    e_value: Some(ev),
                },
                render_record(name, id, len_d, r1_d, r2_d, sc, ev).len() - 1,
            ),
        ),
{
    let t = render_record(name, id, len_d, r1_d, r2_d, sc, ev);
    let nl = name.len() as int;
    let il = id.len() as int;
    let ll = len_d.len() as int;
    let r1l = r1_d.len() as int;
    let r2l = r2_d.len() as int;
    let scl = sc.len() as int;
    let q = 1 + nl;
    let ids = q + 13;
    let sp = ids + il;
    let ds = sp + 9;
    let de = ds + ll;
    let d1s = de + 10;
    let d1e = d1s + r1l;
    let d2s = d1e + 4;
    let d2e = d2s + r2l;
    let ts = d2e + 7;
    let bpos = ts + scl;
    let epos = bpos + 7;
    let vs = epos + 7;
    let cpos = vs + ev.len() as int;
    lemma_round_trip_prefix(t, name, id, len_d, r1_d, r2_d, sc, ev, q, ids, sp, ds, de);
    lemma_round_trip_range(t, name, id, len_d, r1_d, r2_d, sc, ev, de, d1s, d1e, d2s, d2e);
    lemma_round_trip_score(t, name, id, len_d, r1_d, r2_d, sc, ev, d2e, ts, bpos);
    lemma_round_trip_expect(t, name, id, len_d, r1_d, r2_d, sc, ev, bpos, epos, vs, cpos);
    lemma_round_trip_combine(
        t, name, id, len_d, r1_d, r2_d, sc, ev, q, ids, sp, ds, de, d2e, bpos, cpos,
    );
}

} // verus!
