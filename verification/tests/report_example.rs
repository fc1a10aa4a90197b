use blast_report::Alignment;

fn example_report() -> String {
    let mut s = String::new();
    s.push_str("\n>DNA-directed RNA polymerase II subunit RPB1 [Eschrichtius robustus]\n");
    s.push_str("Sequence ID: MBV99095.1 Length: 1457\n");
    s.push_str("Range 1: 160 to 195\n\n");
    s.push_str("Score:78.6 bits(192), Expect:1e-10,\n");
    s.push_str("Method:Compositional matrix adjust.,\n");
    s.push_str("Identities:36/36(100%), Positives:36/36(100%), Gaps:0/36(0%)\n\n");
    s.push_str("Query  1736  APASAMHGGGPPSGDSACPLRTIKRVQFGVLSPDEL  1843\n");
    s.push_str("             APASAMHGGGPPSGDSACPLRTIKRVQFGVLSPDEL\n");
    s.push_str("Sbjct  160   APASAMHGGGPPSGDSACPLRTIKRVQFGVLSPDEL  195\n\n\n\n\n");
    s.push_str(">hypothetical protein GH733_018666 [Mirounga leonina]\n");
    s.push_str("Sequence ID: KAF3813513.1 Length: 2107\n");
    s.push_str("Range 1: 6 to 41\n\n");
    s.push_str("Score:78.2 bits(191), Expect:2e-10,\n");
    s.push_str("Method:Compositional matrix adjust.,\n");
    s.push_str("Identities:36/36(100%), Positives:36/36(100%), Gaps:0/36(0%)\n\n");
    s.push_str("Query  1736  APASAMHGGGPPSGDSACPLRTIKRVQFGVLSPDEL  1843\n");
    s.push_str("             APASAMHGGGPPSGDSACPLRTIKRVQFGVLSPDEL\n");
    s.push_str("Sbjct  6     APASAMHGGGPPSGDSACPLRTIKRVQFGVLSPDEL  41\n\n\n");
    s.push_str(">DNA-directed RNA polymerase II subunit RPB1 [Macaca mulatta]\n");
    s.push_str("Sequence ID: EHH24473.1 Length: 1629\n");
    s.push_str(">DNA-directed RNA polymerase II subunit RPB1 [Macaca fascicularis]\n");
    s.push_str("Sequence ID: EHH57677.1 Length: 1655\n");
    s.push_str("Range 1: 1 to 31\n\n");
    s.push_str("Score:70.5 bits(171), Expect:5e-08,\n");
    s.push_str("Method:Composition-based stats.,\n");
    s.push_str("Identities:31/31(100%), Positives:31/31(100%), Gaps:0/31(0%)\n\n");
    s.push_str("Query  1751  MHGGGPPSGDSACPLRTIKRVQFGVLSPDEL  1843\n");
    s.push_str("             MHGGGPPSGDSACPLRTIKRVQFGVLSPDEL\n");
    s.push_str("Sbjct  1     MHGGGPPSGDSACPLRTIKRVQFGVLSPDEL  31\n\n");
    s
}

#[test]
fn example_report_parses_every_record_in_order() {
    let input = example_report();
    let mut alignments: Vec<Alignment> = Vec::new();
    let mut rest: &str = &input;
    while let Ok((a, r)) = Alignment::parse(rest) {
        alignments.push(a);
        rest = r;
    }
    assert_eq!(alignments.len(), 4);
    assert_eq!(alignments.len(), input.matches('>').count());
    assert_eq!(
        alignments[0].name,
        "DNA-directed RNA polymerase II subunit RPB1 [Eschrichtius robustus]"
    );
    assert_eq!(alignments[0].seq_id, "MBV99095.1");
    assert_eq!(alignments[0].length, 1457);
    assert_eq!(alignments[0].range, Some((160, 195)));
    assert_eq!(alignments[0].score.as_deref(), Some("78.6"));
    assert_eq!(alignments[0].e_value.as_deref(), Some("1e-10"));
    assert_eq!(
        alignments[1].name,
        "hypothetical protein GH733_018666 [Mirounga leonina]"
    );
    assert_eq!(alignments[1].seq_id, "KAF3813513.1");
    assert_eq!(alignments[1].length, 2107);
    assert_eq!(alignments[1].range, Some((6, 41)));
    assert_eq!(alignments[1].score.as_deref(), Some("78.2"));
    assert_eq!(alignments[1].e_value.as_deref(), Some("2e-10"));
    assert_eq!(
        alignments[2].name,
        "DNA-directed RNA polymerase II subunit RPB1 [Macaca mulatta]"
    );
    assert_eq!(alignments[2].seq_id, "EHH24473.1");
    assert_eq!(alignments[2].length, 1629);
    assert_eq!(alignments[2].range, None);
    assert_eq!(alignments[2].score, None);
    assert_eq!(alignments[2].e_value, None);
    assert_eq!(
        alignments[3].name,
        "DNA-directed RNA polymerase II subunit RPB1 [Macaca fascicularis]"
    );
    assert_eq!(alignments[3].seq_id, "EHH57677.1");
    assert_eq!(alignments[3].length, 1655);
    assert_eq!(alignments[3].range, Some((1, 31)));
    assert_eq!(alignments[3].score.as_deref(), Some("70.5"));
    assert_eq!(alignments[3].score.clone().unwrap().parse::<f64>().unwrap(), 70.5);
    assert_eq!(alignments[3].e_value.as_deref(), Some("5e-08"));
    assert_eq!(
        alignments[3].e_value.clone().unwrap().parse::<f64>().unwrap(),
        5e-08
    );
}
