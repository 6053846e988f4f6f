use vstd::prelude::*;

use crate::store::{file_stem, path_stem, token_arrays_view};

verus! {

/// One hit of the fuzzy-hash comparison: a scanned file, the stem of the
/// reference it resembles, and the similarity (0 to 100).
pub struct CompareResult {
    pub similarity: u32,
    pub file_a: String,
    pub file_b: String,
}

/// What `csv` reads from `text` as records without a header row; `None` where
/// it reports an error.
pub uninterp spec fn csv_records(text: Seq<char>) -> Option<Seq<Seq<Seq<char>>>>;

/// Relies on `csv::ReaderBuilder` (no header row, records of equal length) and
/// its `StringRecordsIter`: every record with its fields in order, or an error;
/// the result depends on the text alone.
#[verifier::external_body]
fn read_records(text: &str) -> (r: Option<Vec<Vec<String>>>)
    ensures
        match r {
            Some(v) => csv_records(text@) == Some(token_arrays_view(v@)),
            None => csv_records(text@) is None,
        },
{
    let mut rdr = csv::ReaderBuilder::new().has_headers(false).from_reader(text.as_bytes());
    rdr.records()
        .map(|rec| rec.map(|x| x.iter().map(String::from).collect::<Vec<String>>()))
        .collect::<Result<Vec<Vec<String>>, csv::Error>>()
        .ok()
}

/// Whether every character of `s` is a decimal digit.
pub open spec fn all_digits(s: Seq<char>) -> bool {
    forall|i: int| 0 <= i < s.len() ==> '0' <= #[trigger] s[i] <= '9'
}

/// The value of a string of decimal digits.
pub open spec fn digits_value(s: Seq<char>) -> nat
    decreases s.len(),
{
    if s.len() == 0 {
        0
    } else {
        digits_value(s.drop_last()) * 10 + ((s.last() as nat) - ('0' as nat)) as nat
    }
}

/// The score that a field holds: a non-empty run of decimal digits whose value
/// fits in `u32`.
pub open spec fn score_of(s: Seq<char>) -> Option<u32> {
    if s.len() > 0 && all_digits(s) && digits_value(s) <= u32::MAX {
        Some(digits_value(s) as u32)
    } else {
        None
    }
}

proof fn lemma_value_grows(s: Seq<char>, i: int)
    requires
        0 <= i <= s.len(),
        all_digits(s),
    ensures
        digits_value(s.subrange(0, i)) <= digits_value(s),
    decreases s.len() - i,
{
    if i < s.len() {
        let t = s.subrange(0, i + 1);
        assert(t.drop_last() =~= s.subrange(0, i));
        assert('0' <= s[i] <= '9');
        lemma_value_grows(s, i + 1);
        assert(s.subrange(0, s.len() as int) =~= s);
    } else {
        assert(s.subrange(0, i) =~= s);
    }
}

/// Reads a score field.
pub fn parse_score(s: &String) -> (r: Option<u32>)
    ensures
        r == score_of(s@),
{
    let cs = crate::text::chars_of(s.as_str());
    if cs.len() == 0 {
        return None;
    }
    let mut acc: u64 = 0;
    let mut i: usize = 0;
    while i < cs.len()
        invariant
            i <= cs.len(),
            cs@ == s@,
            acc == digits_value(cs@.subrange(0, i as int)),
            acc <= u32::MAX,
            all_digits(cs@.subrange(0, i as int)),
        decreases cs.len() - i,
    {
        let c = cs[i];
        if c < '0' || c > '9' {
            assert(!all_digits(cs@));
            return None;
        }
        let ghost t = cs@.subrange(0, i + 1);
        assert(t.drop_last() =~= cs@.subrange(0, i as int));
        acc = acc * 10 + ((c as u32) - ('0' as u32)) as u64;
        assert(all_digits(t));
        i = i + 1;
        if acc > 4294967295u64 {
            proof {
                if all_digits(cs@) {
                    lemma_value_grows(cs@, i as int);
                }
            }
            return None;
        }
    }
    assert(cs@.subrange(0, cs.len() as int) =~= cs@);
    Some(acc as u32)
}

/// What one record gives: `None` where it is malformed (not three fields, a
/// score that is not a number, a reference without a stem), `Some(None)` where
/// its score is not above the threshold, else the hit.
pub open spec fn record_hit(rec: Seq<Seq<char>>, threshold: u32) -> Option<Option<(u32, Seq<char>, Seq<char>)>> {
    if rec.len() != 3 {
        None
    } else {
        match score_of(rec[2]) {
            None => None,
            Some(v) => if v > threshold {
                match path_stem(rec[1]) {
                    None => None,
                    Some(st) => Some(Some((v, rec[0], st))),
                }
            } else {
                Some(None)
            },
        }
    }
}

/// The hits of the records in order; `None` where a record is malformed.
pub open spec fn hits(recs: Seq<Seq<Seq<char>>>, threshold: u32) -> Option<Seq<(u32, Seq<char>, Seq<char>)>>
    decreases recs.len(),
{
    if recs.len() == 0 {
        Some(seq![])
    } else {
        match hits(recs.drop_last(), threshold) {
            None => None,
            Some(h) => match record_hit(recs.last(), threshold) {
                None => None,
                Some(None) => Some(h),
                Some(Some(x)) => Some(h.push(x)),
            },
        }
    }
}

/// The plain view of a hit.
pub open spec fn hit_view(c: CompareResult) -> (u32, Seq<char>, Seq<char>) {
    (c.similarity, c.file_a@, c.file_b@)
}

proof fn lemma_hits_none(recs: Seq<Seq<Seq<char>>>, threshold: u32, i: int)
    requires
        0 <= i <= recs.len(),
        hits(recs.subrange(0, i), threshold) is None,
    ensures
        hits(recs, threshold) is None,
    decreases recs.len() - i,
{
    if i < recs.len() {
        assert(recs.subrange(0, i + 1).drop_last() =~= recs.subrange(0, i));
        lemma_hits_none(recs, threshold, i + 1);
    } else {
        assert(recs.subrange(0, i) =~= recs);
    }
}

/// The hits above `threshold` among records of a comparison report (a scanned
/// file, a reference file and a score); `None` where a record is malformed.
pub fn hits_of(recs: &Vec<Vec<String>>, threshold: u32) -> (r: Option<Vec<CompareResult>>)
    ensures
        match r {
            Some(v) => hits(token_arrays_view(recs@), threshold) == Some(
                v@.map_values(|c: CompareResult| hit_view(c)),
            ),
            None => hits(token_arrays_view(recs@), threshold) is None,
        },
{
    let ghost rv = token_arrays_view(recs@);
    let mut out: Vec<CompareResult> = Vec::new();
    let mut i: usize = 0;
    assert(rv.subrange(0, 0) =~= seq![]);
    assert(out@.map_values(|c: CompareResult| hit_view(c)) =~= seq![]);
    while i < recs.len()
        invariant
            i <= recs.len(),
            rv == token_arrays_view(recs@),
            hits(rv.subrange(0, i as int), threshold) == Some(out@.map_values(|c: CompareResult| hit_view(c))),
        decreases recs.len() - i,
    {
        let ghost pre = rv.subrange(0, i + 1);
        assert(pre.drop_last() =~= rv.subrange(0, i as int));
        assert(pre.last() == crate::ngram::strings_view(recs@[i as int]@));
        let rec = &recs[i];
        assert(pre.last().len() == rec.len());
        if rec.len() != 3 {
            assert(record_hit(pre.last(), threshold) is None);
            proof {
                lemma_hits_none(rv, threshold, i + 1);
            }
            return None;
        }
        assert(pre.last()[2] == rec@[2]@);
        assert(pre.last()[1] == rec@[1]@);
        assert(pre.last()[0] == rec@[0]@);
        let score = match parse_score(&rec[2]) {
            Some(v) => v,
            None => {
                proof {
                    lemma_hits_none(rv, threshold, i + 1);
                }
                return None;
            },
        };
        if score > threshold {
            let stem = match file_stem(rec[1].as_str()) {
                Some(st) => st,
                None => {
                    proof {
                        lemma_hits_none(rv, threshold, i + 1);
                    }
                    return None;
                },
            };
            let ghost o0 = out@;
            out.push(CompareResult { similarity: score, file_a: rec[0].clone(), file_b: stem });
            assert(out@.map_values(|c: CompareResult| hit_view(c)) =~= o0.map_values(
                |c: CompareResult| hit_view(c),
            ).push(hit_view(out@[out.len() - 1])));
        }
        i = i + 1;
    }
    assert(rv.subrange(0, recs.len() as int) =~= rv);
    Some(out)
}

/// The hits above `threshold` in the comparison report `output`; `None` where
/// the report cannot be read.
pub fn compare_output(output: &str, threshold: u32) -> (r: Option<Vec<CompareResult>>)
    ensures
        match r {
            Some(v) => csv_records(output@) matches Some(recs) && hits(recs, threshold) == Some(
                v@.map_values(|c: CompareResult| hit_view(c)),
            ),
            None => match csv_records(output@) {
                None => true,
                Some(recs) => hits(recs, threshold) is None,
            },
        },
{
    match read_records(output) {
        Some(recs) => hits_of(&recs, threshold),
        None => None,
    }
}

} // verus!
