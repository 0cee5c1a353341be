//! Parsing Rfam seed alignments in Stockholm form: only the accession
//! (`#=GF AC`), the consensus structure (`#=GC SS_cons`) and the consensus
//! sequence (`#=GC RF`) lines of each alignment block are read.

use vstd::prelude::*;

use crate::alphabet::{left_class, left_symbol, right_class, right_symbol};
use crate::model::{
    balanced, decoded_pairing, first_unmatched_close, is_unclosed_open, least_open_class,
};
use crate::secondary_structure::{decode_chars, SecondaryStructureRecord, StructureParseError};
use crate::text::{
    chars_to_string, lemma_lines_len, lemma_trim_len, spec_lines, spec_starts_with, spec_trim,
    split_lines, starts_with_chars, str_to_chars, trim_chars,
};

verus! {

/// The trimmed remainder of a line after a tag of the given length.
pub open spec fn tag_value(l: Seq<char>, taglen: int) -> Seq<char> {
    spec_trim(l.subrange(taglen, l.len() as int))
}

/// Where a Stockholm scan ends: with the gathered (accession, consensus
/// sequence, structure line) triples, or at a consensus structure whose
/// brackets do not balance.
pub enum RfamScan {
    /// The scan ran through.
    Records(Seq<(Seq<char>, Seq<char>, Seq<char>)>),
    /// A block's consensus structure does not balance.
    BadStructure(Seq<char>),
}

/// The Stockholm line machine: tag lines fill the accession, consensus
/// sequence and structure of the current block; `//` closes a block and,
/// when all three were seen, yields a record.
pub open spec fn rfam_scan(
    lines: Seq<Seq<char>>,
    i: int,
    acc_name: Option<Seq<char>>,
    dbs: Option<Seq<char>>,
    cons: Option<Seq<char>>,
    acc: Seq<(Seq<char>, Seq<char>, Seq<char>)>,
) -> RfamScan
    decreases lines.len() - i,
{
    if i < 0 || i >= lines.len() {
        RfamScan::Records(acc)
    } else {
        let l = lines[i];
        if spec_starts_with(l, "# STOCKHOLM"@) {
            rfam_scan(lines, i + 1, acc_name, dbs, cons, acc)
        } else if spec_starts_with(l, "#=GF AC"@) {
            rfam_scan(lines, i + 1, Some(tag_value(l, "#=GF AC"@.len() as int)), dbs, cons, acc)
        } else if spec_starts_with(l, "#=GC RF"@) {
            rfam_scan(lines, i + 1, acc_name, dbs, Some(tag_value(l, "#=GC RF"@.len() as int)), acc)
        } else if spec_starts_with(l, "#=GC SS_cons"@) {
            rfam_scan(
                lines,
                i + 1,
                acc_name,
                Some(tag_value(l, "#=GC SS_cons"@.len() as int)),
                cons,
                acc,
            )
        } else if spec_starts_with(l, "//"@) {
            if acc_name is Some && dbs is Some && cons is Some {
                if balanced(dbs->Some_0) {
                    rfam_scan(
                        lines,
                        i + 1,
                        None,
                        None,
                        None,
                        acc.push((acc_name->Some_0, cons->Some_0, dbs->Some_0)),
                    )
                } else {
                    RfamScan::BadStructure(dbs->Some_0)
                }
            } else {
                rfam_scan(lines, i + 1, None, None, None, acc)
            }
        } else {
            rfam_scan(lines, i + 1, acc_name, dbs, cons, acc)
        }
    }
}

/// The Stockholm scan of a whole text.
pub open spec fn spec_parse_rfam(s: Seq<char>) -> RfamScan {
    rfam_scan(spec_lines(s), 0, None, None, None, Seq::empty())
}

/// The view of an optional line buffer.
pub open spec fn opt_view(o: Option<Vec<char>>) -> Option<Seq<char>> {
    match o {
        Some(v) => Some(v@),
        None => None,
    }
}

/// The trimmed remainder of `l` after its first `taglen` characters.
fn take_tag_value(l: &Vec<char>, taglen: usize) -> (r: Vec<char>)
    requires
        taglen <= l@.len(),
    ensures
        r@ == tag_value(l@, taglen as int),
{
    let mut rest: Vec<char> = Vec::new();
    let mut q: usize = taglen;
    while q < l.len()
        invariant
            taglen <= q <= l@.len(),
            rest@ =~= l@.subrange(taglen as int, q as int),
        decreases l@.len() - q,
    {
        rest.push(l[q]);
        q = q + 1;
        proof {
            assert(rest@ =~= l@.subrange(taglen as int, q as int));
        }
    }
    trim_chars(&rest)
}

/// What parsing a Stockholm text yields: the scan's records, each decoded,
/// or the decode error of the first consensus structure that does not
/// balance.
pub open spec fn rfam_parse_post(
    cs: Seq<char>,
    r: Result<Vec<SecondaryStructureRecord>, StructureParseError>,
) -> bool {
    &&& (spec_parse_rfam(cs) matches RfamScan::Records(segs) ==> r is Ok && r->Ok_0@.len()
        == segs.len() && forall|q: int|
        0 <= q < segs.len() ==> (#[trigger] r->Ok_0@[q]).name@ == segs[q].0
            && r->Ok_0@[q].sequence@ == segs[q].1 && decoded_pairing(
            segs[q].2,
            r->Ok_0@[q].paired@,
        ))
    &&& (spec_parse_rfam(cs) matches RfamScan::BadStructure(l) ==> r is Err && !balanced(l) && (
    first_unmatched_close(l) >= 0 ==> r == Err::<Vec<SecondaryStructureRecord>, StructureParseError>(
        StructureParseError::MissingLeftParentheses {
            left: left_symbol(right_class(l[first_unmatched_close(l)])),
            right: l[first_unmatched_close(l)],
            pos: (first_unmatched_close(l) + 1) as usize,
        },
    )) && (first_unmatched_close(l) < 0 ==> (r matches Err(
        StructureParseError::MissingRightParentheses { left, right, pos },
    ) && 1 <= pos <= l.len() && left == l[pos - 1] && left_class(left) == least_open_class(l)
        && right == right_symbol(least_open_class(l)) && is_unclosed_open(
        l,
        least_open_class(l),
        pos - 1,
    ))))
}

/// Parses a Stockholm text into records: each alignment block with an
/// accession, a consensus sequence and a consensus structure becomes one
/// record, named by the accession, whose pairing decodes the consensus
/// structure. A consensus structure that does not balance is an error.
pub fn parse_rfam_stockholm(contents: &str) -> (r: Result<
    Vec<SecondaryStructureRecord>,
    StructureParseError,
>)
    requires
        contents@.len() < 0x8000_0000_0000_0000,
    ensures
        rfam_parse_post(contents@, r),
{
    let cs = str_to_chars(contents);
    let lines = split_lines(&cs);
    let ghost lv = spec_lines(contents@);
    proof {
        lemma_lines_len(contents@);
    }
    let tag_start = str_to_chars("# STOCKHOLM");
    let tag_ac = str_to_chars("#=GF AC");
    let tag_rf = str_to_chars("#=GC RF");
    let tag_ss = str_to_chars("#=GC SS_cons");
    let tag_end = str_to_chars("//");
    let mut acc_name: Option<Vec<char>> = None;
    let mut dbs: Option<Vec<char>> = None;
    let mut cons: Option<Vec<char>> = None;
    let mut out: Vec<SecondaryStructureRecord> = Vec::new();
    let ghost mut dbs_lines: Seq<Seq<char>> = Seq::empty();
    proof {
        assert(Seq::new(out@.len(), |q: int| (out@[q].name@, out@[q].sequence@, dbs_lines[q]))
            =~= Seq::<(Seq<char>, Seq<char>, Seq<char>)>::empty());
    }
    let mut i: usize = 0;
    while i < lines.len()
        invariant
            contents@.len() < 0x8000_0000_0000_0000,
            lines@.len() == lv.len(),
            forall|q: int| 0 <= q < lv.len() ==> (#[trigger] lines@[q])@ == lv[q],
            forall|q: int| 0 <= q < lv.len() ==> (#[trigger] lv[q]).len() <= contents@.len(),
            i <= lv.len(),
            tag_start@ == "# STOCKHOLM"@,
            tag_ac@ == "#=GF AC"@,
            tag_rf@ == "#=GC RF"@,
            tag_ss@ == "#=GC SS_cons"@,
            tag_end@ == "//"@,
            dbs matches Some(v) ==> v@.len() < 0x8000_0000_0000_0000,
            out@.len() == dbs_lines.len(),
            forall|q: int|
                0 <= q < out@.len() ==> decoded_pairing(
                    dbs_lines[q],
                    (#[trigger] out@[q]).paired@,
                ),
            spec_parse_rfam(contents@) == rfam_scan(
                lv,
                i as int,
                opt_view(acc_name),
                opt_view(dbs),
                opt_view(cons),
                Seq::new(out@.len(), |q: int| (out@[q].name@, out@[q].sequence@, dbs_lines[q])),
            ),
        decreases lv.len() - i,
    {
        let ghost acc0 = Seq::new(
            out@.len(),
            |q: int| (out@[q].name@, out@[q].sequence@, dbs_lines[q]),
        );
        let line = &lines[i];
        if starts_with_chars(line, &tag_start) {
        } else if starts_with_chars(line, &tag_ac) {
            acc_name = Some(take_tag_value(line, tag_ac.len()));
        } else if starts_with_chars(line, &tag_rf) {
            cons = Some(take_tag_value(line, tag_rf.len()));
        } else if starts_with_chars(line, &tag_ss) {
            let v = take_tag_value(line, tag_ss.len());
            proof {
                lemma_trim_len(lv[i as int].subrange(
                    "#=GC SS_cons"@.len() as int,
                    lv[i as int].len() as int,
                ));
            }
            dbs = Some(v);
        } else if starts_with_chars(line, &tag_end) {
            let ready = acc_name.is_some() && dbs.is_some() && cons.is_some();
            if ready {
                let name_v = match acc_name {
                    Some(v) => v,
                    None => Vec::new(),
                };
                let dbs_v = match dbs {
                    Some(v) => v,
                    None => Vec::new(),
                };
                let cons_v = match cons {
                    Some(v) => v,
                    None => Vec::new(),
                };
                match decode_chars(&dbs_v) {
                    Ok(paired) => {
                        let rec = SecondaryStructureRecord {
                            name: chars_to_string(&name_v),
                            sequence: chars_to_string(&cons_v),
                            paired,
                        };
                        out.push(rec);
                        proof {
                            dbs_lines = dbs_lines.push(dbs_v@);
                            assert(Seq::new(
                                out@.len(),
                                |q: int| (out@[q].name@, out@[q].sequence@, dbs_lines[q]),
                            ) =~= acc0.push((name_v@, cons_v@, dbs_v@)));
                        }
                    },
                    Err(e) => {
                        proof {
                            assert(spec_parse_rfam(contents@) == RfamScan::BadStructure(dbs_v@));
                        }
                        return Err(e);
                    },
                }
            }
            acc_name = None;
            dbs = None;
            cons = None;
        } else {
        }
        i = i + 1;
    }
    Ok(out)
}


/// Relies on flate2's `GzDecoder` read through `Read::read_to_end`: whether
/// and how a gzip stream inflates is a function of its bytes alone.
#[verifier::external_body]
fn gunzip(bytes: &Vec<u8>) -> (r: Option<Vec<u8>>)
    ensures
        r is Some ==> spec_gunzip(bytes@) == Some(r->Some_0@),
        r is None ==> spec_gunzip(bytes@) is None,
{
    let mut decoder = flate2::read::GzDecoder::new(bytes.as_slice());
    let mut out: Vec<u8> = Vec::new();
    match std::io::Read::read_to_end(&mut decoder, &mut out) {
        Ok(_) => Some(out),
        Err(_) => None,
    }
}

/// What a gzip stream inflates to, or nothing when it is not a well-formed
/// gzip stream.
pub uninterp spec fn spec_gunzip(b: Seq<u8>) -> Option<Seq<u8>>;

/// Relies on `String::from_utf8`: it accepts exactly the valid UTF-8 byte
/// strings and decodes them.
#[verifier::external_body]
fn string_from_utf8(bytes: Vec<u8>) -> (r: Option<String>)
    ensures
        r is Some <==> vstd::utf8::valid_utf8(bytes@),
        r is Some ==> r->Some_0@ == vstd::utf8::decode_utf8(bytes@),
{
    String::from_utf8(bytes).ok()
}

/// Parses a gzip-compressed Stockholm text into records. A stream that does
/// not inflate, or inflates to something other than UTF-8 text, is reported
/// as a malformed input.
pub fn parse_rfam_stockholm_gz(gz: &Vec<u8>) -> (r: Result<
    Vec<SecondaryStructureRecord>,
    StructureParseError,
>)
    ensures
        spec_gunzip(gz@) is Some && vstd::utf8::valid_utf8(spec_gunzip(gz@)->Some_0)
            && vstd::utf8::decode_utf8(spec_gunzip(gz@)->Some_0).len() < 0x8000_0000_0000_0000
            ==> rfam_parse_post(vstd::utf8::decode_utf8(spec_gunzip(gz@)->Some_0), r),
        spec_gunzip(gz@) is None || (spec_gunzip(gz@) is Some && !vstd::utf8::valid_utf8(
            spec_gunzip(gz@)->Some_0,
        )) ==> (r matches Err(StructureParseError::ExpectedLine { msg })
            && msg@ == "Expected a gzip stream holding text."@),
{
    let bytes = match gunzip(gz) {
        Some(b) => b,
        None => {
            return Err(
                StructureParseError::ExpectedLine {
                    msg: "Expected a gzip stream holding text.".to_owned(),
                },
            );
        },
    };
    let text = match string_from_utf8(bytes) {
        Some(t) => t,
        None => {
            return Err(
                StructureParseError::ExpectedLine {
                    msg: "Expected a gzip stream holding text.".to_owned(),
                },
            );
        },
    };
    if (text.as_str().unicode_len() as u64) >= 0x8000_0000_0000_0000u64 {
        return Err(
            StructureParseError::ExpectedLine {
                msg: "Expected a gzip stream holding text.".to_owned(),
            },
        );
    }
    parse_rfam_stockholm(text.as_str())
}

} // verus!

