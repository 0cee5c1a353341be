use rna_secondary_structure::secondary_structure::{
    from_dotbracketstring, get_dot_bracket_string, get_matching_bracket, is_pseudoknotted,
    PairedSites, SecondaryStructureRecord, StructureParseError,
};

#[test]
fn test_to_dotbracketstring() {
    let pairedsites = vec![10, 7, 6, 0, 0, 3, 2, 0, 0, 1, 0, 0];
    let ss = SecondaryStructureRecord::new(pairedsites);
    assert_eq!(ss.get_dot_bracket_string().unwrap(), "(((..))..)..");
}

#[test]
fn secondary_structure_test_test_to_dotbracketstring() {
    let pairedsites = vec![10, 7, 6, 0, 0, 3, 2, 0, 0, 1, 0, 0];
    let ss = SecondaryStructureRecord::new(pairedsites);
    assert_eq!(ss.get_dot_bracket_string().unwrap(), "(((..))..)..");
}

#[test]
fn test_from_dotbracketstring() {
    let ss = SecondaryStructureRecord::new(from_dotbracketstring("<(A..a)..>..").unwrap());
    let paired = vec![10, 7, 6, 0, 0, 3, 2, 0, 0, 1, 0, 0];
    assert_eq!(ss.paired, paired);
}

#[test]
fn test_decode_example_structure() {
    let paired = from_dotbracketstring("(((..))..)..").unwrap();
    assert_eq!(paired, vec![10, 7, 6, 0, 0, 3, 2, 0, 0, 1, 0, 0]);
    let encoded = get_dot_bracket_string(&paired).unwrap();
    assert_eq!(encoded, "(((..))..)..");
}

#[test]
fn test_unmatched_closing_bracket() {
    let err = from_dotbracketstring(")").unwrap_err();
    assert_eq!(
        err,
        StructureParseError::MissingLeftParentheses { left: '(', right: ')', pos: 1 }
    );
}

#[test]
fn test_unmatched_opening_bracket() {
    let err = from_dotbracketstring("((.").unwrap_err();
    assert_eq!(
        err,
        StructureParseError::MissingRightParentheses { left: '(', right: ')', pos: 2 }
    );
}

#[test]
fn test_unrecognised_bracket() {
    assert_eq!(get_matching_bracket('<').unwrap(), '>');
    assert_eq!(get_matching_bracket('Z').unwrap(), 'z');
    assert_eq!(get_matching_bracket(']').unwrap(), '[');
    let err = get_matching_bracket('?').unwrap_err();
    assert_eq!(err, StructureParseError::BracketTypeNotRecognised { c: '?' });
}

#[test]
fn test_multi_class_encoding() {
    // the crossing pairs force the classes apart, greedily from the lowest
    let paired = vec![5, 7, 6, 9, 1, 3, 2, 10, 4, 8, 0, 0];
    let dbs = get_dot_bracket_string(&paired).unwrap();
    assert_eq!(dbs, "(<<{)>>(})..");
    assert_eq!(from_dotbracketstring(&dbs).unwrap(), paired);
}

#[test]
fn test_round_trip_decode_encode() {
    for dbs in [
        "",
        "...",
        "(((...)))",
        "<<<..((.>>>....))",
        "<(A..a)..>..",
        "A..<<<..a...>>>....",
    ] {
        let paired = from_dotbracketstring(dbs).unwrap();
        let encoded = get_dot_bracket_string(&paired).unwrap();
        assert_eq!(from_dotbracketstring(&encoded).unwrap(), paired);
    }
}

#[test]
fn test_pseudoknot_classification() {
    let non_pseudoknotted =
        from_dotbracketstring("<<<..<<<.<..>>.>..>..>...<<...>..>>.>").unwrap();
    assert_eq!(is_pseudoknotted(&non_pseudoknotted).unwrap(), false);
    let pseudoknotted = from_dotbracketstring("<<<..((.>>>....))").unwrap();
    assert_eq!(is_pseudoknotted(&pseudoknotted).unwrap(), true);
    let pseudoknotted2 = from_dotbracketstring("A..<<<..a...>>>....").unwrap();
    assert_eq!(is_pseudoknotted(&pseudoknotted2).unwrap(), true);
}

#[test]
fn test_single_class_never_pseudoknotted() {
    for dbs in ["", "()", "((.(...).))", "(((..))..)..", "().()...(())"] {
        let paired = from_dotbracketstring(dbs).unwrap();
        assert_eq!(is_pseudoknotted(&paired).unwrap(), false);
    }
}

#[test]
fn test_crossing_letter_pair_is_pseudoknotted() {
    // the A...a pair opens inside the <...> pair and closes outside it
    let paired = from_dotbracketstring("((..)..).<A>.a").unwrap();
    assert_eq!(paired, vec![8, 5, 0, 0, 2, 0, 0, 1, 0, 12, 14, 10, 0, 11]);
    assert_eq!(is_pseudoknotted(&paired).unwrap(), true);
}

#[test]
fn test_classifier_integrity_errors() {
    // a closing site whose opening site was never seen
    let premature = vec![0, 1];
    assert_eq!(is_pseudoknotted(&premature).unwrap_err(), StructureParseError::InputConsumed);
    // an opening site that is never consumed
    let unconsumed = vec![2, 0];
    assert_eq!(is_pseudoknotted(&unconsumed).unwrap_err(), StructureParseError::InputNotConsumed);
}

#[test]
fn test_insufficient_bracket_types() {
    // 31 mutually crossing pairs need a 31st class, one more than exists
    let n = 31;
    let len = 2 * n;
    let mut paired = vec![0i64; len];
    for m in 0..n {
        paired[m] = (n + m + 1) as i64;
        paired[n + m] = (m + 1) as i64;
    }
    assert_eq!(
        get_dot_bracket_string(&paired).unwrap_err(),
        StructureParseError::InsufficientBracketTypes
    );

    // 30 mutually crossing pairs use exactly the thirty classes
    let n = 30;
    let len = 2 * n;
    let mut paired = vec![0i64; len];
    for m in 0..n {
        paired[m] = (n + m + 1) as i64;
        paired[n + m] = (m + 1) as i64;
    }
    let dbs = get_dot_bracket_string(&paired).unwrap();
    assert_eq!(dbs, "(<{[ABCDEFGHIJKLMNOPQRSTUVWXYZ)>}]abcdefghijklmnopqrstuvwxyz");
    assert_eq!(from_dotbracketstring(&dbs).unwrap(), paired);
}

#[test]
fn test_paired_sites_trait() {
    let paired = vec![4, 0, 0, 1];
    let ss = SecondaryStructureRecord::new(paired.clone());
    assert_eq!(ss.paired(), &paired);
    assert_eq!(paired.paired(), &paired);
}

#[test]
fn test_record_construction_and_mutators() {
    let mut ss = SecondaryStructureRecord::new(vec![4, 0, 0, 1]);
    assert_eq!(ss.name, "");
    assert_eq!(ss.sequence, "NNNN");
    assert_eq!(ss.paired, vec![4, 0, 0, 1]);
    ss.set_sequence("ACGU".to_string());
    assert_eq!(ss.sequence, "ACGU");
    ss.set_paired(vec![0, 4, 0, 2]);
    assert_eq!(ss.paired, vec![0, 4, 0, 2]);
    ss.name = "renamed".to_string();
    assert_eq!(ss.name, "renamed");
}
