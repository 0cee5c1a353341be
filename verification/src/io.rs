//! Reading and writing secondary structures as text: the connect (CT) format
//! and the dot-bracket notation (DBN) format, over in-memory strings. File
//! handling belongs to callers.

use vstd::prelude::*;

use crate::model::{
    balanced, decoded_pairing, first_unmatched_close, greedy_first_fit, has_crossing,
    is_unclosed_open, least_open_class, valid_pairing,
};
use crate::alphabet::{left_class, left_symbol, right_class, right_symbol};
use crate::secondary_structure::{
    get_dot_bracket_string, SecondaryStructureRecord, StructureParseError,
};
use crate::text::{
    chars_to_string, push_i64_chars, push_u64_digits, spec_int_string, spec_lines,
    spec_parse_i64, spec_tokens, spec_trim, split_lines, split_ws, str_to_chars, trim_chars,
    parse_i64_chars,
};

verus! {

pub open spec fn min2(a: int, b: int) -> int {
    if a <= b {
        a
    } else {
        b
    }
}

/// One line of a connect-format record: rank, residue, predecessor,
/// successor, partner, rank again, tab-separated.
pub open spec fn ct_line(i: int, c: char, j: i64) -> Seq<char> {
    spec_int_string(i + 1) + seq!['\t'] + seq![c] + seq!['\t'] + spec_int_string(i) + seq!['\t']
        + spec_int_string(i + 2) + seq!['\t'] + spec_int_string(j as int) + seq!['\t']
        + spec_int_string(i + 1) + seq!['\n']
}

/// The first `n` data lines of a connect-format record.
pub open spec fn ct_body(seqc: Seq<char>, p: Seq<i64>, n: int) -> Seq<char>
    decreases n,
{
    if n <= 0 {
        Seq::empty()
    } else {
        ct_body(seqc, p, n - 1) + ct_line(n - 1, seqc[n - 1], p[n - 1])
    }
}

/// A whole connect-format record: a `>name` line, then one line per site.
/// Sites beyond the shorter of sequence and pairing are not written.
pub open spec fn ct_record_string(name: Seq<char>, seqc: Seq<char>, p: Seq<i64>) -> Seq<char> {
    seq!['>'] + name + seq!['\n'] + ct_body(seqc, p, min2(seqc.len() as int, p.len() as int))
}

/// The concatenated connect-format records of the first `n` entries.
pub open spec fn ct_records_string(rs: Seq<SecondaryStructureRecord>, n: int) -> Seq<char>
    decreases n,
{
    if n <= 0 {
        Seq::empty()
    } else {
        ct_records_string(rs, n - 1) + ct_record_string(
            rs[n - 1].name@,
            rs[n - 1].sequence@,
            rs[n - 1].paired@,
        )
    }
}

/// Appends one site's connect-format line.
fn push_ct_line(out: &mut Vec<char>, i: usize, c: char, j: i64)
    requires
        i + 2 < 0x8000_0000_0000_0000,
    ensures
        final(out)@ == old(out)@ + ct_line(i as int, c, j),
{
    let iu = i as u64;
    push_u64_digits(out, iu + 1);
    out.push('\t');
    out.push(c);
    out.push('\t');
    push_u64_digits(out, iu);
    out.push('\t');
    push_u64_digits(out, iu + 2);
    out.push('\t');
    push_i64_chars(out, j);
    out.push('\t');
    push_u64_digits(out, iu + 1);
    out.push('\n');
    proof {
        assert(final(out)@ =~= old(out)@ + ct_line(i as int, c, j));
    }
}

/// Appends the connect-format record of `ss` to `buffer`.
pub fn write_ct(buffer: &mut String, ss: &SecondaryStructureRecord)
    requires
        min2(ss.sequence@.len() as int, ss.paired@.len() as int) + 2 < 0x8000_0000_0000_0000,
    ensures
        final(buffer)@ == old(buffer)@ + ct_record_string(
            ss.name@,
            ss.sequence@,
            ss.paired@,
        ),
{
    let ghost seqv = ss.sequence@;
    let ghost pv = ss.paired@;
    let seq_chars = str_to_chars(ss.sequence.as_str());
    let n = if seq_chars.len() <= ss.paired.len() {
        seq_chars.len()
    } else {
        ss.paired.len()
    };
    let mut out: Vec<char> = Vec::new();
    out.push('>');
    let name_chars = str_to_chars(ss.name.as_str());
    let mut q: usize = 0;
    while q < name_chars.len()
        invariant
            q <= name_chars@.len(),
            name_chars@ == ss.name@,
            out@ =~= seq!['>'] + ss.name@.subrange(0, q as int),
        decreases name_chars@.len() - q,
    {
        out.push(name_chars[q]);
        q = q + 1;
        proof {
            assert(out@ =~= seq!['>'] + ss.name@.subrange(0, q as int));
        }
    }
    out.push('\n');
    proof {
        assert(ss.name@.subrange(0, ss.name@.len() as int) =~= ss.name@);
        assert(out@ =~= seq!['>'] + ss.name@ + seq!['\n']);
    }
    let ghost head = seq!['>'] + ss.name@ + seq!['\n'];
    let mut i: usize = 0;
    while i < n
        invariant
            seqv == ss.sequence@,
            pv == ss.paired@,
            seq_chars@ == seqv,
            n == min2(seqv.len() as int, pv.len() as int),
            n + 2 < 0x8000_0000_0000_0000,
            i <= n,
            out@ == head + ct_body(seqv, pv, i as int),
        decreases n - i,
    {
        let ghost out_old = out@;
        push_ct_line(&mut out, i, seq_chars[i], ss.paired[i]);
        proof {
            assert(out@ =~= head + ct_body(seqv, pv, i + 1 as int));
        }
        i = i + 1;
    }
    let s = chars_to_string(&out);
    buffer.append(s.as_str());
    proof {
        assert(final(buffer)@ =~= old(buffer)@ + ct_record_string(ss.name@, seqv, pv));
    }
}

/// The connect-format string of one record.
pub fn get_ct_string(ss: &SecondaryStructureRecord) -> (r: String)
    requires
        min2(ss.sequence@.len() as int, ss.paired@.len() as int) + 2 < 0x8000_0000_0000_0000,
    ensures
        r@ == ct_record_string(ss.name@, ss.sequence@, ss.paired@),
{
    let mut buffer = String::new();
    write_ct(&mut buffer, ss);
    buffer
}

/// Appends the connect-format records of all entries to `buffer`.
pub fn write_records_to_ct_buffer(buffer: &mut String, records: &Vec<SecondaryStructureRecord>)
    requires
        forall|i: int|
            0 <= i < records@.len() ==> min2(
                (#[trigger] records@[i]).sequence@.len() as int,
                records@[i].paired@.len() as int,
            ) + 2 < 0x8000_0000_0000_0000,
    ensures
        final(buffer)@ == old(buffer)@ + ct_records_string(records@, records@.len() as int),
{
    let ghost oldb = old(buffer)@;
    let mut i: usize = 0;
    while i < records.len()
        invariant
            forall|q: int|
                0 <= q < records@.len() ==> min2(
                    (#[trigger] records@[q]).sequence@.len() as int,
                    records@[q].paired@.len() as int,
                ) + 2 < 0x8000_0000_0000_0000,
            i <= records@.len(),
            buffer@ == oldb + ct_records_string(records@, i as int),
        decreases records@.len() - i,
    {
        write_ct(buffer, &records[i]);
        i = i + 1;
    }
}

/// A trimmed CT line whose first token begins a new record.
pub open spec fn ct_is_header(l: Seq<char>) -> bool {
    let toks = spec_tokens(spec_trim(l));
    toks.len() > 0 && toks[0].len() > 0 && toks[0][0] == '>'
}

/// A trimmed CT line carrying one site: six or more tokens, the first, fifth
/// and sixth readable as numbers.
pub open spec fn ct_is_data(l: Seq<char>) -> bool {
    let toks = spec_tokens(spec_trim(l));
    &&& toks.len() >= 6
    &&& spec_parse_i64(toks[0]) is Some
    &&& spec_parse_i64(toks[5]) is Some
    &&& spec_parse_i64(toks[4]) is Some
}

/// The residue token of a CT data line.
pub open spec fn ct_data_residue(l: Seq<char>) -> Seq<char> {
    spec_tokens(spec_trim(l))[1]
}

/// The partner index of a CT data line.
pub open spec fn ct_data_partner(l: Seq<char>) -> i64 {
    spec_parse_i64(spec_tokens(spec_trim(l))[4])->Some_0
}

/// The records a connect-format text denotes, scanned line by line: header
/// lines flush the record gathered so far and carry the following record's
/// name; data lines extend sequence and pairing; other lines are skipped.
pub open spec fn ct_scan(
    lines: Seq<Seq<char>>,
    i: int,
    name: Seq<char>,
    seqc: Seq<char>,
    paired: Seq<i64>,
    acc: Seq<(Seq<char>, Seq<char>, Seq<i64>)>,
) -> Seq<(Seq<char>, Seq<char>, Seq<i64>)>
    decreases lines.len() - i,
{
    if i < 0 || i >= lines.len() {
        if paired.len() > 0 {
            acc.push((name, seqc, paired))
        } else {
            acc
        }
    } else {
        let l = lines[i];
        if ct_is_header(l) {
            let name2 = l.subrange(1, l.len() as int);
            if paired.len() > 0 {
                ct_scan(
                    lines,
                    i + 1,
                    name2,
                    Seq::empty(),
                    Seq::empty(),
                    acc.push((name, seqc, paired)),
                )
            } else {
                ct_scan(lines, i + 1, name2, seqc, paired, acc)
            }
        } else if ct_is_data(l) {
            ct_scan(lines, i + 1, name, seqc + ct_data_residue(l), paired.push(ct_data_partner(l)), acc)
        } else {
            ct_scan(lines, i + 1, name, seqc, paired, acc)
        }
    }
}

/// The records denoted by a connect-format text.
pub open spec fn spec_parse_ct(s: Seq<char>) -> Seq<(Seq<char>, Seq<char>, Seq<i64>)> {
    ct_scan(spec_lines(s), 0, Seq::empty(), Seq::empty(), Seq::empty(), Seq::empty())
}

/// Parses a connect-format text into records. Lines that match no CT shape
/// are skipped, so the parse itself never fails.
pub fn parse_ct_string(ct_string: &String) -> (r: Result<
    Vec<SecondaryStructureRecord>,
    StructureParseError,
>)
    ensures
        r is Ok,
        r->Ok_0@.len() == spec_parse_ct(ct_string@).len(),
        forall|i: int|
            0 <= i < r->Ok_0@.len() ==> (#[trigger] r->Ok_0@[i]).name@ == spec_parse_ct(
                ct_string@,
            )[i].0 && r->Ok_0@[i].sequence@ == spec_parse_ct(ct_string@)[i].1
                && r->Ok_0@[i].paired@ == spec_parse_ct(ct_string@)[i].2,
{
    let cs = str_to_chars(ct_string.as_str());
    let lines = split_lines(&cs);
    let ghost lv = spec_lines(ct_string@);
    let mut name: Vec<char> = Vec::new();
    let mut seqc: Vec<char> = Vec::new();
    let mut paired: Vec<i64> = Vec::new();
    let mut out: Vec<SecondaryStructureRecord> = Vec::new();
    proof {
        assert(Seq::new(
            out@.len(),
            |q: int| (out@[q].name@, out@[q].sequence@, out@[q].paired@),
        ) =~= Seq::<(Seq<char>, Seq<char>, Seq<i64>)>::empty());
    }
    let mut i: usize = 0;
    while i < lines.len()
        invariant
            lines@.len() == lv.len(),
            forall|q: int| 0 <= q < lv.len() ==> (#[trigger] lines@[q])@ == lv[q],
            i <= lv.len(),
            spec_parse_ct(ct_string@) == ct_scan(
                lv,
                i as int,
                name@,
                seqc@,
                paired@,
                Seq::new(out@.len(), |q: int| (out@[q].name@, out@[q].sequence@, out@[q].paired@)),
            ),
        decreases lv.len() - i,
    {
        let ghost gname = name@;
        let ghost gseq = seqc@;
        let ghost gpair = paired@;
        let ghost acc0 = Seq::new(
            out@.len(),
            |q: int| (out@[q].name@, out@[q].sequence@, out@[q].paired@),
        );
        let line = &lines[i];
        let trimmed = trim_chars(line);
        let toks = split_ws(&trimmed);
        let is_header = toks.len() > 0 && toks[0].len() > 0 && toks[0][0] == '>';
        if is_header {
            proof {
                assert(ct_is_header(lv[i as int]));
                assert(spec_trim(lv[i as int]).len() > 0);
                assert(lv[i as int].len() > 0);
            }
            if paired.len() > 0 {
                let rec = SecondaryStructureRecord {
                    name: chars_to_string(&name),
                    sequence: chars_to_string(&seqc),
                    paired,
                };
                out.push(rec);
                seqc = Vec::new();
                paired = Vec::new();
                proof {
                    assert(Seq::new(
                        out@.len(),
                        |q: int| (out@[q].name@, out@[q].sequence@, out@[q].paired@),
                    ) =~= acc0.push((gname, gseq, gpair)));
                }
            }
            // the record's name: the raw line after its first character
            name = Vec::new();
            let mut q: usize = 1;
            while q < line.len()
                invariant
                    1 <= q <= line@.len(),
                    name@ =~= line@.subrange(1, q as int),
                decreases line@.len() - q,
            {
                name.push(line[q]);
                q = q + 1;
                proof {
                    assert(name@ =~= line@.subrange(1, q as int));
                }
            }
            proof {
                assert(name@ =~= lv[i as int].subrange(1, lv[i as int].len() as int));
            }
        } else {
            let is_data = toks.len() >= 6 && parse_i64_chars(&toks[0]).is_some() && parse_i64_chars(
                &toks[5],
            ).is_some() && parse_i64_chars(&toks[4]).is_some();
            if is_data {
                proof {
                    assert(!ct_is_header(lv[i as int]));
                    assert(ct_is_data(lv[i as int]));
                }
                let tok1 = &toks[1];
                let mut q: usize = 0;
                while q < tok1.len()
                    invariant
                        q <= tok1@.len(),
                        seqc@ =~= gseq + tok1@.subrange(0, q as int),
                    decreases tok1@.len() - q,
                {
                    seqc.push(tok1[q]);
                    q = q + 1;
                    proof {
                        assert(seqc@ =~= gseq + tok1@.subrange(0, q as int));
                    }
                }
                proof {
                    assert(tok1@.subrange(0, tok1@.len() as int) =~= tok1@);
                    assert(seqc@ =~= gseq + ct_data_residue(lv[i as int]));
                }
                match parse_i64_chars(&toks[4]) {
                    Some(v) => {
                        paired.push(v);
                        proof {
                            assert(v == ct_data_partner(lv[i as int]));
                        }
                    },
                    None => {
                        proof {
                            assert(false);
                        }
                    },
                }
            } else {
                proof {
                    assert(!ct_is_header(lv[i as int]) && !ct_is_data(lv[i as int]));
                }
            }
        }
        i = i + 1;
    }
    if paired.len() > 0 {
        let rec = SecondaryStructureRecord {
            name: chars_to_string(&name),
            sequence: chars_to_string(&seqc),
            paired,
        };
        let ghost acc0 = Seq::new(
            out@.len(),
            |q: int| (out@[q].name@, out@[q].sequence@, out@[q].paired@),
        );
        let ghost gname = name@;
        let ghost gseq = seqc@;
        let ghost gpair = rec.paired@;
        out.push(rec);
        proof {
            assert(Seq::new(
                out@.len(),
                |q: int| (out@[q].name@, out@[q].sequence@, out@[q].paired@),
            ) =~= acc0.push((gname, gseq, gpair)));
        }
    }
    proof {
        let t = spec_parse_ct(ct_string@);
        let v = Seq::new(out@.len(), |q: int| (out@[q].name@, out@[q].sequence@, out@[q].paired@));
        assert(t == v);
        assert(t.len() == out@.len());
        assert forall|q: int| 0 <= q < out@.len() implies (#[trigger] out@[q]).name@ == t[q].0
            && out@[q].sequence@ == t[q].1 && out@[q].paired@ == t[q].2 by {
            assert(v[q] == (out@[q].name@, out@[q].sequence@, out@[q].paired@));
        }
    }
    Ok(out)
}

/// A dot-bracket string denoting the pairing `p`, classes assigned greedily
/// first-fit as the encoder assigns them.
pub open spec fn is_dbn_of(d: Seq<char>, p: Seq<i64>) -> bool {
    decoded_pairing(d, p) && balanced(d) && greedy_first_fit(d, p)
}

/// One record in DBN form: name, sequence and bracket string, each on its
/// own line.
pub open spec fn dbn_record_string(name: Seq<char>, seqc: Seq<char>, d: Seq<char>) -> Seq<char> {
    seq!['>'] + name + seq!['\n'] + seqc + seq!['\n'] + d + seq!['\n']
}

/// Every entry of `ds` is a dot-bracket string of the matching record's
/// pairing.
pub open spec fn dbn_strings_ok(ds: Seq<Seq<char>>, rs: Seq<SecondaryStructureRecord>) -> bool {
    ds.len() == rs.len() && forall|i: int|
        0 <= i < rs.len() ==> is_dbn_of(ds[i], (#[trigger] rs[i]).paired@)
}

/// The concatenated DBN forms of the first `n` records, record `q` written
/// with the bracket string `ds[q]`.
pub open spec fn dbn_records_string(
    rs: Seq<SecondaryStructureRecord>,
    ds: Seq<Seq<char>>,
    n: int,
) -> Seq<char>
    decreases n,
{
    if n <= 0 {
        Seq::empty()
    } else {
        dbn_records_string(rs, ds, n - 1) + dbn_record_string(
            rs[n - 1].name@,
            rs[n - 1].sequence@,
            ds[n - 1],
        )
    }
}

/// The concatenation reads only the first `n` bracket strings.
proof fn lemma_dbn_records_string_prefix(
    rs: Seq<SecondaryStructureRecord>,
    ds1: Seq<Seq<char>>,
    ds2: Seq<Seq<char>>,
    n: int,
)
    requires
        forall|q: int| 0 <= q < n ==> ds1[q] == ds2[q],
    ensures
        dbn_records_string(rs, ds1, n) == dbn_records_string(rs, ds2, n),
    decreases n,
{
    if n > 0 {
        lemma_dbn_records_string_prefix(rs, ds1, ds2, n - 1);
    }
}

/// Appends the DBN form of `ss` to `buffer`: its name line, its sequence
/// line, and the dot-bracket string of its pairing. When the pairing cannot
/// be encoded, the name and sequence lines stand and the error is returned.
pub fn write_dbn(buffer: &mut String, ss: &SecondaryStructureRecord) -> (r: Result<
    (),
    StructureParseError,
>)
    requires
        valid_pairing(ss.paired@),
        ss.paired@.len() < 0x8000_0000_0000_0000,
    ensures
        r is Ok ==> exists|d: Seq<char>|
            #[trigger] is_dbn_of(d, ss.paired@) && final(buffer)@ == old(buffer)@
                + dbn_record_string(ss.name@, ss.sequence@, d),
        !has_crossing(ss.paired@) ==> r is Ok,
        r is Err ==> r->Err_0 == StructureParseError::InsufficientBracketTypes && has_crossing(
            ss.paired@,
        ) && final(buffer)@ == old(buffer)@ + seq!['>'] + ss.name@ + seq!['\n'] + ss.sequence@
            + seq!['\n'],
{
    proof {
        reveal_strlit(">");
        reveal_strlit("\n");
        assert(">"@ =~= seq!['>']);
        assert("\n"@ =~= seq!['\n']);
    }
    buffer.append(">");
    buffer.append(ss.name.as_str());
    buffer.append("\n");
    buffer.append(ss.sequence.as_str());
    buffer.append("\n");
    let ghost mid = old(buffer)@ + seq!['>'] + ss.name@ + seq!['\n'] + ss.sequence@ + seq!['\n'];
    proof {
        assert(buffer@ =~= mid);
    }
    match get_dot_bracket_string(&ss.paired) {
        Ok(d) => {
            let ghost dv = d@;
            buffer.append(d.as_str());
            buffer.append("\n");
            proof {
                assert(is_dbn_of(dv, ss.paired@));
                assert(final(buffer)@ =~= old(buffer)@ + dbn_record_string(
                    ss.name@,
                    ss.sequence@,
                    dv,
                ));
            }
            Ok(())
        },
        Err(e) => Err(e),
    }
}

/// Appends the DBN forms of all records to `buffer`, in order. The first
/// record whose pairing cannot be encoded stops the run with its error, its
/// name and sequence lines already written.
pub fn write_records_to_dbn(buffer: &mut String, records: &Vec<SecondaryStructureRecord>) -> (r:
    Result<(), StructureParseError>)
    requires
        forall|i: int|
            0 <= i < records@.len() ==> valid_pairing((#[trigger] records@[i]).paired@)
                && records@[i].paired@.len() < 0x8000_0000_0000_0000,
    ensures
        r is Ok ==> exists|ds: Seq<Seq<char>>|
            #[trigger] dbn_strings_ok(ds, records@) && final(buffer)@ == old(buffer)@
                + dbn_records_string(records@, ds, records@.len() as int),
        (forall|i: int|
            0 <= i < records@.len() ==> !has_crossing((#[trigger] records@[i]).paired@)) ==> r
            is Ok,
        r is Err ==> r->Err_0 == StructureParseError::InsufficientBracketTypes && exists|i: int|
            0 <= i < records@.len() && has_crossing((#[trigger] records@[i]).paired@),
{
    let ghost oldb = old(buffer)@;
    let ghost mut ds: Seq<Seq<char>> = Seq::empty();
    let mut i: usize = 0;
    while i < records.len()
        invariant
            forall|q: int|
                0 <= q < records@.len() ==> valid_pairing((#[trigger] records@[q]).paired@)
                    && records@[q].paired@.len() < 0x8000_0000_0000_0000,
            i <= records@.len(),
            ds.len() == i,
            forall|q: int|
                0 <= q < i ==> is_dbn_of(ds[q], (#[trigger] records@[q]).paired@),
            buffer@ == oldb + dbn_records_string(records@, ds, i as int),
        decreases records@.len() - i,
    {
        let ghost pre = buffer@;
        let ghost ds0 = ds;
        let res = write_dbn(buffer, &records[i]);
        match res {
            Ok(()) => {
                proof {
                    let d = choose|d: Seq<char>|
                        #[trigger] is_dbn_of(d, records@[i as int].paired@) && buffer@ == pre
                            + dbn_record_string(
                            records@[i as int].name@,
                            records@[i as int].sequence@,
                            d,
                        );
                    ds = ds0.push(d);
                    lemma_dbn_records_string_prefix(records@, ds0, ds, i as int);
                    assert(buffer@ =~= oldb + dbn_records_string(records@, ds, i + 1 as int));
                }
            },
            Err(e) => {
                proof {
                    assert(has_crossing(records@[i as int].paired@));
                }
                return Err(e);
            },
        }
        i = i + 1;
    }
    proof {
        assert(dbn_strings_ok(ds, records@));
    }
    Ok(())
}

/// The index of the first character of `s` at or after `from` that is not
/// `>`.
pub open spec fn skip_gt_idx(s: Seq<char>, from: int) -> int
    decreases s.len() - from,
{
    if from < 0 || from >= s.len() {
        s.len() as int
    } else if s[from] == '>' {
        skip_gt_idx(s, from + 1)
    } else {
        from
    }
}

/// `s` without its leading `>` characters, as `str::trim_start_matches('>')`
/// yields it.
pub open spec fn spec_skip_gt(s: Seq<char>) -> Seq<char> {
    s.subrange(skip_gt_idx(s, 0), s.len() as int)
}

proof fn lemma_skip_gt_idx_bounds(s: Seq<char>, from: int)
    requires
        0 <= from <= s.len(),
    ensures
        from <= skip_gt_idx(s, from) <= s.len(),
    decreases s.len() - from,
{
    if from < s.len() && s[from] == '>' {
        lemma_skip_gt_idx_bounds(s, from + 1);
    }
}

/// `l` without its leading `>` characters.
fn skip_gt(l: &Vec<char>) -> (r: Vec<char>)
    ensures
        r@ == spec_skip_gt(l@),
{
    let ghost s = l@;
    let n = l.len();
    let mut a: usize = 0;
    while a < n && l[a] == '>'
        invariant
            s == l@,
            n == s.len(),
            a <= n,
            skip_gt_idx(s, 0) == skip_gt_idx(s, a as int),
        decreases n - a,
    {
        a = a + 1;
    }
    proof {
        assert(skip_gt_idx(s, a as int) == a);
    }
    let mut r: Vec<char> = Vec::new();
    let mut q: usize = a;
    while q < n
        invariant
            s == l@,
            a <= q <= n,
            n == s.len(),
            r@ =~= s.subrange(a as int, q as int),
        decreases n - q,
    {
        r.push(l[q]);
        q = q + 1;
    }
    proof {
        assert(r@ =~= spec_skip_gt(s));
    }
    r
}

/// Where a DBN scan of the lines ends: with the gathered records, or at a
/// blank line standing where a sequence or a bracket string was announced,
/// or at an unbalanced bracket string. Each record is three consecutive
/// trimmed lines: a name (leading `>` stripped), a sequence, and a bracket
/// string; blank lines may separate records.
pub enum DbnScan {
    /// The scan ran through; each record is (name, sequence, bracket line).
    Records(Seq<(Seq<char>, Seq<char>, Seq<char>)>),
    /// A blank line stood where a record's sequence was announced.
    MissingSequence,
    /// A blank line stood where a record's bracket string was announced.
    MissingStructure,
    /// A record's bracket string does not balance.
    BadStructure(Seq<char>),
}

/// The DBN line machine: state 0 awaits a name, 1 a sequence, 2 a bracket
/// string, 3 a blank separator or the next name.
pub open spec fn dbn_scan(
    lines: Seq<Seq<char>>,
    i: int,
    m: int,
    name: Seq<char>,
    seqc: Seq<char>,
    acc: Seq<(Seq<char>, Seq<char>, Seq<char>)>,
) -> DbnScan
    decreases lines.len() - i,
{
    if i < 0 || i >= lines.len() {
        DbnScan::Records(acc)
    } else {
        let l = spec_trim(lines[i]);
        if l.len() == 0 {
            if m == 0 || m == 3 {
                dbn_scan(lines, i + 1, 0, name, seqc, acc)
            } else if m == 1 {
                DbnScan::MissingSequence
            } else {
                DbnScan::MissingStructure
            }
        } else if m == 0 || m == 3 {
            dbn_scan(lines, i + 1, 1, spec_skip_gt(l), seqc, acc)
        } else if m == 1 {
            dbn_scan(lines, i + 1, 2, name, l, acc)
        } else {
            if balanced(l) {
                dbn_scan(lines, i + 1, 3, name, seqc, acc.push((name, seqc, l)))
            } else {
                DbnScan::BadStructure(l)
            }
        }
    }
}

/// The DBN scan of a whole text.
pub open spec fn spec_parse_dbn(s: Seq<char>) -> DbnScan {
    dbn_scan(spec_lines(s), 0, 0, Seq::empty(), Seq::empty(), Seq::empty())
}

/// Parses a DBN text into records: groups of name line, sequence line and
/// bracket-string line, separated by blank lines. A blank line inside a
/// group, or a bracket string that does not decode, is an error.
pub fn parse_dbn(contents: &str) -> (r: Result<Vec<SecondaryStructureRecord>, StructureParseError>)
    requires
        contents@.len() < 0x8000_0000_0000_0000,
    ensures
        spec_parse_dbn(contents@) matches DbnScan::Records(segs) ==> r is Ok
            && r->Ok_0@.len() == segs.len() && forall|q: int|
            0 <= q < segs.len() ==> (#[trigger] r->Ok_0@[q]).name@ == segs[q].0
                && r->Ok_0@[q].sequence@ == segs[q].1 && decoded_pairing(
                segs[q].2,
                r->Ok_0@[q].paired@,
            ),
        spec_parse_dbn(contents@) is MissingSequence ==> (r matches Err(
            StructureParseError::ExpectedLine { msg },
        ) && msg@ == "Expected a line containing a sequence. Found a blank line."@),
        spec_parse_dbn(contents@) is MissingStructure ==> (r matches Err(
            StructureParseError::ExpectedLine { msg },
        ) && msg@ == "Expected a line containing a dot bracket string. Found a blank line."@),
        spec_parse_dbn(contents@) matches DbnScan::BadStructure(l) ==> r is Err && !balanced(l)
            && (first_unmatched_close(l) >= 0 ==> r == Err::<
            Vec<SecondaryStructureRecord>,
            StructureParseError,
        >(
            StructureParseError::MissingLeftParentheses {
                left: left_symbol(right_class(l[first_unmatched_close(l)])),
                right: l[first_unmatched_close(l)],
                pos: (first_unmatched_close(l) + 1) as usize,
            },
        )) && (first_unmatched_close(l) < 0 ==> (r matches Err(
            StructureParseError::MissingRightParentheses { left, right, pos },
        ) && 1 <= pos <= l.len() && left == l[pos - 1] && left_class(left) == least_open_class(l)
            && right == right_symbol(least_open_class(l)) && is_unclosed_open(
            l,
            least_open_class(l),
            pos - 1,
        ))),
{
    let cs = str_to_chars(contents);
    let lines = split_lines(&cs);
    let ghost lv = spec_lines(contents@);
    proof {
        crate::text::lemma_lines_len(contents@);
    }
    let mut m: usize = 0;
    let mut name: Vec<char> = Vec::new();
    let mut seqc: Vec<char> = Vec::new();
    let mut out: Vec<SecondaryStructureRecord> = Vec::new();
    let ghost mut dbs_lines: Seq<Seq<char>> = Seq::empty();
    proof {
        assert(Seq::new(out@.len(), |q: int| (out@[q].name@, out@[q].sequence@, dbs_lines[q]))
            =~= Seq::<(Seq<char>, Seq<char>, Seq<char>)>::empty());
    }
    let mut i: usize = 0;
    while i < lines.len()
        invariant
            contents@.len() < 0x8000_0000_0000_0000,
            lines@.len() == lv.len(),
            forall|q: int| 0 <= q < lv.len() ==> (#[trigger] lines@[q])@ == lv[q],
            forall|q: int| 0 <= q < lv.len() ==> (#[trigger] lv[q]).len() <= contents@.len(),
            i <= lv.len(),
            m == 0 || m == 1 || m == 2 || m == 3,
            out@.len() == dbs_lines.len(),
            forall|q: int|
                0 <= q < out@.len() ==> decoded_pairing(
                    dbs_lines[q],
                    (#[trigger] out@[q]).paired@,
                ),
            spec_parse_dbn(contents@) == dbn_scan(
                lv,
                i as int,
                m as int,
                name@,
                seqc@,
                Seq::new(out@.len(), |q: int| (out@[q].name@, out@[q].sequence@, dbs_lines[q])),
            ),
        decreases lv.len() - i,
    {
        let ghost acc0 = Seq::new(
            out@.len(),
            |q: int| (out@[q].name@, out@[q].sequence@, dbs_lines[q]),
        );
        let line = &lines[i];
        let trimmed = trim_chars(line);
        proof {
            crate::text::lemma_trim_len(lv[i as int]);
        }
        if trimmed.len() == 0 {
            if m == 0 || m == 3 {
                m = 0;
            } else if m == 1 {
                return Err(
                    StructureParseError::ExpectedLine {
                        msg: "Expected a line containing a sequence. Found a blank line.".to_owned(),
                    },
                );
            } else {
                return Err(
                    StructureParseError::ExpectedLine {
                        msg: "Expected a line containing a dot bracket string. Found a blank line.".to_owned(),
                    },
                );
            }
        } else if m == 0 || m == 3 {
            name = skip_gt(&trimmed);
            m = 1;
        } else if m == 1 {
            seqc = trimmed;
            m = 2;
        } else {
            match crate::secondary_structure::decode_chars(&trimmed) {
                Ok(paired) => {
                    let rec = SecondaryStructureRecord {
                        name: chars_to_string(&name),
                        sequence: chars_to_string(&seqc),
                        paired,
                    };
                    out.push(rec);
                    proof {
                        dbs_lines = dbs_lines.push(trimmed@);
                        assert(Seq::new(
                            out@.len(),
                            |q: int| (out@[q].name@, out@[q].sequence@, dbs_lines[q]),
                        ) =~= acc0.push((name@, seqc@, trimmed@)));
                    }
                    m = 3;
                },
                Err(e) => {
                    proof {
                        assert(spec_parse_dbn(contents@) == DbnScan::BadStructure(trimmed@));
                    }
                    return Err(e);
                },
            }
        }
        i = i + 1;
    }
    Ok(out)
}

} // verus!
