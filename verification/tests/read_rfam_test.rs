use std::io::Write;

use rna_secondary_structure::read_rfam::{parse_rfam_stockholm, parse_rfam_stockholm_gz};

const STOCKHOLM: &str = "# STOCKHOLM 1.0
#=GF AC   RF00001
some_sequence/1-6 AACCGG
#=GC SS_cons ((..))
#=GC RF AACCGG
//
# STOCKHOLM 1.0
#=GF AC   RF00002
#=GC SS_cons <<..>>
#=GC RF GGCCAA
//
# STOCKHOLM 1.0
#=GF AC   RF00003
//
";

#[test]
fn test_parse_rfam_stockholm() {
    let records = parse_rfam_stockholm(STOCKHOLM).unwrap();
    // the third block lacks a structure and a sequence, so two records come back
    assert_eq!(records.len(), 2);
    assert_eq!(records[0].name, "RF00001");
    assert_eq!(records[0].sequence, "AACCGG");
    assert_eq!(records[0].paired, vec![6, 5, 0, 0, 2, 1]);
    assert_eq!(records[1].name, "RF00002");
    assert_eq!(records[1].sequence, "GGCCAA");
    assert_eq!(records[1].paired, vec![6, 5, 0, 0, 2, 1]);
}

#[test]
fn test_parse_rfam_stockholm_bad_structure() {
    let text = "#=GF AC RF99999\n#=GC SS_cons ((..)\n#=GC RF AACCG\n//\n";
    assert!(parse_rfam_stockholm(text).is_err());
}

#[test]
fn test_parse_rfam_stockholm_gz() {
    let mut encoder =
        flate2::write::GzEncoder::new(Vec::new(), flate2::Compression::default());
    encoder.write_all(STOCKHOLM.as_bytes()).unwrap();
    let gz_bytes = encoder.finish().unwrap();

    let records = parse_rfam_stockholm_gz(&gz_bytes).unwrap();
    assert_eq!(records.len(), 2);
    assert_eq!(records[0].name, "RF00001");
    assert_eq!(records[1].paired, vec![6, 5, 0, 0, 2, 1]);
}

#[test]
fn test_parse_rfam_stockholm_gz_rejects_garbage() {
    let garbage = vec![1u8, 2, 3, 4, 5];
    assert!(parse_rfam_stockholm_gz(&garbage).is_err());
}
