use blast_report::Alignment;
use blast_report::Document;
use blast_report::Header;
use blast_report::ParseError;

#[test]
fn header_scenario() {
    let input = "Program: BLASTX\nQuery: None ID: lcl|Query_60974(dna) Length: 2030";
    let (h, rest) = Header::parse(input).unwrap();
    assert_eq!(h.program, "BLASTX");
    assert_eq!(h.query_length, 2030);
    assert_eq!(rest, "");
}

#[test]
fn header_discards_leading_text() {
    let input = "some banner text\nProgram: TBLASTN\nQuery: None ID: lcl|Query_60974(dna) Length: 7\nrest";
    let (h, rest) = Header::parse(input).unwrap();
    assert_eq!(h.program, "TBLASTN");
    assert_eq!(h.query_length, 7);
    assert_eq!(rest, "\nrest");
}

#[test]
fn header_missing_program_anchor() {
    let err = Header::parse("no anchors at all").unwrap_err();
    assert_eq!(err, ParseError::AnchorNotFound("Program: ".to_string()));
}

#[test]
fn header_missing_query_anchor() {
    let input = "Program: BLASTX\nQuery: something else Length: 2030";
    let err = Header::parse(input).unwrap_err();
    assert_eq!(
        err,
        ParseError::AnchorNotFound("Query: None ID: lcl|Query_60974(dna) Length: ".to_string())
    );
}

#[test]
fn header_malformed_number() {
    let input = "Program: BLASTX\nQuery: None ID: lcl|Query_60974(dna) Length: abc";
    let err = Header::parse(input).unwrap_err();
    assert_eq!(err, ParseError::MalformedNumber);
}

#[test]
fn record_without_statistics() {
    let input = ">Name\nSequence ID: ABC123.1 Length: 500\n>Next";
    let (a, rest) = Alignment::parse(input).unwrap();
    assert_eq!(a.name, "Name");
    assert_eq!(a.seq_id, "ABC123.1");
    assert_eq!(a.length, 500);
    assert_eq!(a.range, None);
    assert_eq!(a.score, None);
    assert_eq!(a.e_value, None);
    assert_eq!(rest, "\n>Next");
}

#[test]
fn record_with_full_statistics() {
    let input = "\n>DNA-directed RNA polymerase II subunit RPB1 [Eschrichtius robustus]\n\
Sequence ID: MBV99095.1 Length: 1457\n\
Range 1: 160 to 195\n\
\n\
Score:78.6 bits(192), Expect:1e-10,\n\
Method:Compositional matrix adjust.\n";
    let (a, rest) = Alignment::parse(input).unwrap();
    assert_eq!(
        a.name,
        "DNA-directed RNA polymerase II subunit RPB1 [Eschrichtius robustus]"
    );
    assert_eq!(a.seq_id, "MBV99095.1");
    assert_eq!(a.length, 1457);
    assert_eq!(a.range, Some((160, 195)));
    assert_eq!(a.score.as_deref(), Some("78.6"));
    assert_eq!(a.e_value.as_deref(), Some("1e-10"));
    assert_eq!(a.score.unwrap().parse::<f64>().unwrap(), 78.6);
    assert_eq!(a.e_value.unwrap().parse::<f64>().unwrap(), 1e-10);
    assert!(rest.starts_with(",\nMethod:"));
}

#[test]
fn record_name_is_trimmed_of_wrapping() {
    let input = ">  Wrapped\nname \nSequence ID: A1 Length: 5";
    let (a, _) = Alignment::parse(input).unwrap();
    assert_eq!(a.name, "Wrapped\nname");
}

#[test]
fn record_end_of_input_without_marker() {
    let err = Alignment::parse("no record marker here").unwrap_err();
    assert_eq!(err, ParseError::EndOfInput);
}

#[test]
fn record_missing_sequence_id_anchor() {
    let err = Alignment::parse(">Name with nothing after").unwrap_err();
    assert_eq!(err, ParseError::AnchorNotFound("Sequence ID: ".to_string()));
}

#[test]
fn record_length_overflow_is_malformed() {
    let input = ">N\nSequence ID: A1 Length: 3000000000";
    let err = Alignment::parse(input).unwrap_err();
    assert_eq!(err, ParseError::MalformedNumber);
}

#[test]
fn record_failed_range_attempt_leaves_no_statistics() {
    let input = ">N\nSequence ID: A1 Length: 5\nsome text Score:1.5 bits, Expect:2e-3,";
    let (a, rest) = Alignment::parse(input).unwrap();
    assert_eq!(a.range, None);
    assert_eq!(a.score, None);
    assert_eq!(a.e_value, None);
    assert!(rest.starts_with("\nsome text Score:"));
}

#[test]
fn record_range_overflow_rolls_back() {
    let input = ">N\nSequence ID: A1 Length: 5\nRange 1: 99999999999999999999999 to 7\n";
    let (a, _) = Alignment::parse(input).unwrap();
    assert_eq!(a.range, None);
    assert_eq!(a.score, None);
    assert_eq!(a.e_value, None);
}

#[test]
fn record_range_without_score_or_expect() {
    let input = ">N\nSequence ID: A1 Length: 5\nRange 1: 1 to 2\nScore:abc bits, Expect:2e-3,";
    let (a, _) = Alignment::parse(input).unwrap();
    assert_eq!(a.range, Some((1, 2)));
    assert_eq!(a.score, None);
    assert_eq!(a.e_value.as_deref(), Some("2e-3"));
}

#[test]
fn record_score_fraction_without_integer_part() {
    let input = ">N\nSequence ID: A1 Length: 5\nRange 1: 1 to 2\nScore:.5 bits, Expect:3.25e+2,";
    let (a, _) = Alignment::parse(input).unwrap();
    assert_eq!(a.score.as_deref(), Some(".5"));
    assert_eq!(a.score.unwrap().parse::<f64>().unwrap(), 0.5);
    assert_eq!(a.e_value.as_deref(), Some("3.25e+2"));
    assert_eq!(a.e_value.unwrap().parse::<f64>().unwrap(), 325.0);
}

#[test]
fn document_two_records_in_order() {
    let input = "Program: BLASTX\nQuery: None ID: lcl|Query_60974(dna) Length: 2030\n\
>Alpha\nSequence ID: AAA1.1 Length: 10\n\
>Beta\nSequence ID: BBB2.2 Length: 20";
    let doc = Document::parse(input).unwrap();
    assert_eq!(doc.header.program, "BLASTX");
    assert_eq!(doc.alignments.len(), 2);
    assert_eq!(doc.alignments.len(), input.matches('>').count());
    assert_eq!(doc.alignments[0].name, "Alpha");
    assert_eq!(doc.alignments[0].seq_id, "AAA1.1");
    assert_eq!(doc.alignments[0].length, 10);
    assert_eq!(doc.alignments[1].name, "Beta");
    assert_eq!(doc.alignments[1].length, 20);
}

#[test]
fn document_empty_record_list_is_not_an_error() {
    let input = "Program: BLASTX\nQuery: None ID: lcl|Query_60974(dna) Length: 2030";
    let doc = Document::parse(input).unwrap();
    assert_eq!(doc.alignments.len(), 0);
}

#[test]
fn document_missing_header_anchor() {
    let err = Document::parse(">Name\nSequence ID: A1 Length: 5").unwrap_err();
    assert_eq!(err, ParseError::AnchorNotFound("Program: ".to_string()));
}

#[test]
fn document_mid_record_failure_is_hard_error() {
    let input = "Program: BLASTX\nQuery: None ID: lcl|Query_60974(dna) Length: 2030\n\
>Alpha\nSequence ID: AAA1.1 Length: 10\n\
>Truncated record without its anchors";
    let err = Document::parse(input).unwrap_err();
    assert_eq!(err, ParseError::AnchorNotFound("Sequence ID: ".to_string()));
}

#[test]
fn error_messages() {
    assert_eq!(
        ParseError::AnchorNotFound("Program: ".to_string()).message(),
        "anchor not found: Program: "
    );
    assert_eq!(ParseError::MalformedNumber.message(), "malformed number");
    assert_eq!(ParseError::EndOfInput.message(), "end of input");
}
