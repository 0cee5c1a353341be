//! Earlier entry points for the connect (CT) format, working on a bare
//! sequence and pairing rather than a whole record.

use vstd::prelude::*;
use vstd::pervasive::unreached;

use crate::io::{ct_record_string, min2, spec_parse_ct, write_ct};
use crate::secondary_structure::{SecondaryStructureRecord, StructureParseError};

verus! {

/// The connect-format string of a sequence, its paired sites, and a title.
pub fn get_ct_string(seq: &String, pairedsites: &Vec<i64>, title: &String) -> (r: String)
    requires
        min2(seq@.len() as int, pairedsites@.len() as int) + 2 < 0x8000_0000_0000_0000,
    ensures
        r@ == ct_record_string(title@, seq@, pairedsites@),
{
    let mut paired_copy: Vec<i64> = Vec::new();
    let mut q: usize = 0;
    while q < pairedsites.len()
        invariant
            q <= pairedsites@.len(),
            paired_copy@ =~= pairedsites@.subrange(0, q as int),
        decreases pairedsites@.len() - q,
    {
        paired_copy.push(pairedsites[q]);
        q = q + 1;
        proof {
            assert(paired_copy@ =~= pairedsites@.subrange(0, q as int));
        }
    }
    proof {
        assert(paired_copy@ =~= pairedsites@);
    }
    let record = SecondaryStructureRecord {
        name: title.clone(),
        sequence: seq.clone(),
        paired: paired_copy,
    };
    let mut buffer = String::new();
    write_ct(&mut buffer, &record);
    buffer
}

/// Parses a connect-format text into records. Lines that match no CT shape
/// are skipped, so the parse cannot fail.
pub fn parse_ct_string(ct_string: &String) -> (r: Vec<SecondaryStructureRecord>)
    ensures
        r@.len() == spec_parse_ct(ct_string@).len(),
        forall|i: int|
            0 <= i < r@.len() ==> (#[trigger] r@[i]).name@ == spec_parse_ct(ct_string@)[i].0
                && r@[i].sequence@ == spec_parse_ct(ct_string@)[i].1 && r@[i].paired@
                == spec_parse_ct(ct_string@)[i].2,
{
    match crate::io::parse_ct_string(ct_string) {
        Ok(v) => v,
        Err(_) => unreached(),
    }
}

} // verus!
