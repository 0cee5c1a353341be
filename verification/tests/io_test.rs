use rna_secondary_structure::io;
use rna_secondary_structure::secondary_structure;
use rna_secondary_structure::secondary_structure::SecondaryStructureRecord;
use rna_secondary_structure::secondary_structure::StructureParseError;
use rna_secondary_structure::secondary_structure_io;

#[test]
/// Tests both the the get_ct_string and parse_ct_string functions.
fn test_ct_strings() {
    let dbs1 = ".(((...))...)".to_string();
    let paired1 = secondary_structure::from_dotbracketstring(&dbs1).unwrap();
    let ss1 = SecondaryStructureRecord {
        name: "example1".to_string(),
        paired: paired1,
        sequence: "ATAGCATCTCGGA".to_string(),
    };

    let dbs2 = "...............".to_string();
    let paired2 = secondary_structure::from_dotbracketstring(&dbs2).unwrap();
    let ss2 = SecondaryStructureRecord {
        name: "example2".to_string(),
        paired: paired2,
        sequence: "CCCCAAAAAAAAAAA".to_string(),
    };

    let dbs3 = "((....))".to_string();
    let paired3 = secondary_structure::from_dotbracketstring(&dbs3).unwrap();
    let ss3 = SecondaryStructureRecord {
        name: "example3".to_string(),
        paired: paired3,
        sequence: "CCAAAAGG".to_string(),
    };

    let mut ct_string = "".to_string();
    ct_string.push_str(&io::get_ct_string(&ss1));
    ct_string.push_str(&io::get_ct_string(&ss2));
    ct_string.push_str("\n\n"); // test robustness to adding in blank lines
    ct_string.push_str(&io::get_ct_string(&ss3));

    let ls = io::parse_ct_string(&ct_string).unwrap();

    assert_eq!(ls[0].sequence, ss1.sequence);
    assert_eq!(ls[0].paired, ss1.paired);
    assert_eq!(ls[1].sequence, ss2.sequence);
    assert_eq!(ls[1].paired, ss2.paired);
    assert_eq!(ls[2].sequence, ss3.sequence);
    assert_eq!(ls[2].paired, ss3.paired);
}

#[test]
/// Tests both the the get_ct_string and parse_ct_string functions.
fn secondary_structure_io_test_test_ct_strings() {
    let seq1 = "ATAGCATCTCGGA".to_string();
    let dbs1 = ".(((...))...)".to_string();
    let paired1 = secondary_structure::from_dotbracketstring(&dbs1).unwrap();

    let seq2 = "CCCCAAAAAAAAAAA".to_string();
    let dbs2 = "...............".to_string();
    let paired2 = secondary_structure::from_dotbracketstring(&dbs2).unwrap();

    let seq3 = "CCAAAAGG".to_string();
    let dbs3 = "((....))".to_string();
    let paired3 = secondary_structure::from_dotbracketstring(&dbs3).unwrap();

    let mut ct_string = "".to_string();
    ct_string.push_str(&secondary_structure_io::get_ct_string(
        &seq1,
        &paired1,
        &"example1".to_string(),
    ));
    ct_string.push_str(&secondary_structure_io::get_ct_string(
        &seq2,
        &paired2,
        &"example2".to_string(),
    ));
    ct_string.push_str("\n\n"); // test robustness to adding in blank lines
    ct_string.push_str(&secondary_structure_io::get_ct_string(
        &seq3,
        &paired3,
        &"example3".to_string(),
    ));

    let ls = secondary_structure_io::parse_ct_string(&ct_string);

    assert_eq!(ls[0].sequence, seq1);
    assert_eq!(ls[0].paired, paired1);
    assert_eq!(ls[1].sequence, seq2);
    assert_eq!(ls[1].paired, paired2);
    assert_eq!(ls[2].sequence, seq3);
    assert_eq!(ls[2].paired, paired3);
}

#[test]
fn test_ct_string_exact_form() {
    let mut ss = SecondaryStructureRecord::new(
        secondary_structure::from_dotbracketstring("((..)..)").unwrap(),
    );
    ss.set_sequence("CGAACAAG".to_string());
    ss.name = "example".to_string();
    let ct_string_observed = io::get_ct_string(&ss);

    let ct_string_expected = ">example
1\tC\t0\t2\t8\t1
2\tG\t1\t3\t5\t2
3\tA\t2\t4\t0\t3
4\tA\t3\t5\t0\t4
5\tC\t4\t6\t2\t5
6\tA\t5\t7\t0\t6
7\tA\t6\t8\t0\t7
8\tG\t7\t9\t1\t8
";

    assert_eq!(ct_string_observed, ct_string_expected);
}

#[test]
fn test_parse_ct_names_and_skipped_lines() {
    let ct = ">first\n1\tA\t0\t2\t2\t1\n2\tU\t1\t3\t1\t2\nnot a data line\n>second\n1\tG\t0\t2\t0\t1\n";
    let ls = io::parse_ct_string(&ct.to_string()).unwrap();
    assert_eq!(ls.len(), 2);
    assert_eq!(ls[0].name, "first");
    assert_eq!(ls[0].sequence, "AU");
    assert_eq!(ls[0].paired, vec![2, 1]);
    assert_eq!(ls[1].name, "second");
    assert_eq!(ls[1].sequence, "G");
    assert_eq!(ls[1].paired, vec![0]);
}

#[test]
fn test_write_dbn_and_parse_dbn() {
    let mut ss = SecondaryStructureRecord::new(
        secondary_structure::from_dotbracketstring("((..)..)").unwrap(),
    );
    ss.set_sequence("CGAACAAG".to_string());
    ss.name = "example".to_string();

    let mut buffer = String::new();
    io::write_dbn(&mut buffer, &ss).unwrap();
    assert_eq!(buffer, ">example\nCGAACAAG\n((..)..)\n");

    let parsed = io::parse_dbn(&buffer).unwrap();
    assert_eq!(parsed.len(), 1);
    assert_eq!(parsed[0].name, "example");
    assert_eq!(parsed[0].sequence, "CGAACAAG");
    assert_eq!(parsed[0].paired, ss.paired);
}

#[test]
fn test_write_records_to_buffers() {
    let mut ss1 = SecondaryStructureRecord::new(
        secondary_structure::from_dotbracketstring("(...)").unwrap(),
    );
    ss1.name = "a".to_string();
    ss1.set_sequence("GAAAC".to_string());
    let mut ss2 = SecondaryStructureRecord::new(
        secondary_structure::from_dotbracketstring(".....").unwrap(),
    );
    ss2.name = "b".to_string();
    ss2.set_sequence("AAAAA".to_string());
    let records = vec![ss1, ss2];

    let mut dbn = String::new();
    io::write_records_to_dbn(&mut dbn, &records).unwrap();
    assert_eq!(dbn, ">a\nGAAAC\n(...)\n>b\nAAAAA\n.....\n");

    let mut ct = String::new();
    io::write_records_to_ct_buffer(&mut ct, &records);
    let ls = io::parse_ct_string(&ct).unwrap();
    assert_eq!(ls.len(), 2);
    assert_eq!(ls[0].name, "a");
    assert_eq!(ls[1].sequence, "AAAAA");
}

#[test]
fn test_parse_dbn_blank_line_errors() {
    let err = io::parse_dbn(">name\n\nACGU\n....\n").unwrap_err();
    match err {
        StructureParseError::ExpectedLine { msg } => {
            assert_eq!(msg, "Expected a line containing a sequence. Found a blank line.");
        },
        _ => panic!("wrong error"),
    }
    let err = io::parse_dbn(">name\nACGU\n\n....\n").unwrap_err();
    match err {
        StructureParseError::ExpectedLine { msg } => {
            assert_eq!(
                msg,
                "Expected a line containing a dot bracket string. Found a blank line."
            );
        },
        _ => panic!("wrong error"),
    }
}

#[test]
fn test_parse_dbn_bad_structure() {
    let err = io::parse_dbn(">name\nACGU\n..).\n").unwrap_err();
    assert_eq!(
        err,
        StructureParseError::MissingLeftParentheses { left: '(', right: ')', pos: 3 }
    );
}
