use vstd::prelude::*;

use crate::discriminator::{occurs_in, table_sound, LicenseCorpus, Fingerprint};
use crate::ngram::{grams_view, NGram};

verus! {

/// A license as loaded from a stored table: its id, level and fingerprint.
pub struct InputCorpus {
    pub file: String,
    pub level: u64,
    pub ngrams: Vec<NGram>,
}

/// Whether every fingerprint n-gram of `l` is among the candidate's n-grams.
pub open spec fn covers(l: InputCorpus, cand: Seq<NGram>) -> bool {
    forall|k: int| 0 <= k < l.ngrams@.len() ==> grams_view(cand).contains(#[trigger] l.ngrams@[k]@)
}

/// The ids of the licenses whose fingerprint the candidate covers, in the
/// order of `ls`.
pub open spec fn matched_ids(ls: Seq<InputCorpus>, cand: Seq<NGram>) -> Seq<Seq<char>>
    decreases ls.len(),
{
    if ls.len() == 0 {
        seq![]
    } else {
        matched_ids(ls.drop_last(), cand) + if covers(ls.last(), cand) {
            seq![ls.last().file@]
        } else {
            seq![]
        }
    }
}

/// Whether the candidate holds an n-gram with the tokens of `g`.
fn holds_gram(cand: &Vec<NGram>, g: &NGram) -> (r: bool)
    ensures
        r == grams_view(cand@).contains(g@),
{
    let mut m: usize = 0;
    while m < cand.len()
        invariant
            m <= cand.len(),
            forall|j: int| 0 <= j < m ==> (#[trigger] cand@[j])@ != g@,
        decreases cand.len() - m,
    {
        if cand[m].same_tokens(g) {
            assert(grams_view(cand@)[m as int] == g@);
            return true;
        }
        m = m + 1;
    }
    assert forall|j: int| 0 <= j < grams_view(cand@).len() implies grams_view(cand@)[j] != g@ by {
        assert(cand@[j]@ != g@);
    }
    false
}

/// Whether the candidate's n-grams cover the fingerprint of `l`.
pub fn is_covered(l: &InputCorpus, cand: &Vec<NGram>) -> (r: bool)
    ensures
        r == covers(*l, cand@),
{
    let mut k: usize = 0;
    while k < l.ngrams.len()
        invariant
            k <= l.ngrams.len(),
            forall|j: int| 0 <= j < k ==> grams_view(cand@).contains(#[trigger] l.ngrams@[j]@),
        decreases l.ngrams.len() - k,
    {
        if !holds_gram(cand, &l.ngrams[k]) {
            return false;
        }
        k = k + 1;
    }
    true
}

/// The ids of the licenses, in the given order (by level, as loaded), whose
/// every fingerprint n-gram occurs among the candidate's n-grams.
pub fn match_licenses(ls: &Vec<InputCorpus>, cand: &Vec<NGram>) -> (r: Vec<String>)
    ensures
        crate::ngram::strings_view(r@) == matched_ids(ls@, cand@),
{
    let mut r: Vec<String> = Vec::new();
    let mut i: usize = 0;
    while i < ls.len()
        invariant
            i <= ls.len(),
            crate::ngram::strings_view(r@) == matched_ids(ls@.subrange(0, i as int), cand@),
        decreases ls.len() - i,
    {
        let ghost before = crate::ngram::strings_view(r@);
        let ghost pre = ls@.subrange(0, i + 1);
        assert(pre.drop_last() =~= ls@.subrange(0, i as int));
        assert(pre.last() == ls@[i as int]);
        if is_covered(&ls[i], cand) {
            r.push(ls[i].file.clone());
            assert(crate::ngram::strings_view(r@) =~= before + seq![ls@[i as int].file@]);
        } else {
            assert(before + seq![] =~= before);
        }
        i = i + 1;
    }
    assert(ls@.subrange(0, ls.len() as int) =~= ls@);
    r
}

/// A license whose fingerprint the candidate covers is among the matches.
pub proof fn lemma_covered_is_matched(ls: Seq<InputCorpus>, cand: Seq<NGram>, p: int)
    requires
        0 <= p < ls.len(),
        covers(ls[p], cand),
    ensures
        matched_ids(ls, cand).contains(ls[p].file@),
    decreases ls.len(),
{
    let tail = if covers(ls.last(), cand) { seq![ls.last().file@] } else { seq![] };
    if p == ls.len() - 1 {
        assert((matched_ids(ls.drop_last(), cand) + tail)[matched_ids(ls.drop_last(), cand).len() as int]
            == ls[p].file@);
    } else {
        assert(ls.drop_last()[p] == ls[p]);
        lemma_covered_is_matched(ls.drop_last(), cand, p);
        let w = choose|w: int| 0 <= w < matched_ids(ls.drop_last(), cand).len()
            && matched_ids(ls.drop_last(), cand)[w] == ls[p].file@;
        assert((matched_ids(ls.drop_last(), cand) + tail)[w] == ls[p].file@);
    }
}

/// Matcher soundness: when a table trained on `cs` is loaded as `ls`, a
/// candidate that holds every n-gram of the reference text of corpus `l`
/// (the reference text itself, or a larger file that embeds it) matches the
/// license loaded from that corpus's fingerprint.
pub proof fn lemma_reference_matches(
    cs: Seq<LicenseCorpus>,
    t: Seq<Fingerprint>,
    ls: Seq<InputCorpus>,
    cand: Seq<NGram>,
    l: int,
    p: int,
)
    requires
        table_sound(cs, t),
        0 <= l < cs.len(),
        0 <= p < ls.len(),
        grams_view(ls[p].ngrams@) == grams_view(t[l].ngrams@),
        forall|g: Seq<Seq<char>>| occurs_in(cs[l], g) ==> #[trigger] grams_view(cand).contains(g),
    ensures
        matched_ids(ls, cand).contains(ls[p].file@),
{
    assert forall|k: int| 0 <= k < ls[p].ngrams@.len() implies grams_view(cand).contains(
        #[trigger] ls[p].ngrams@[k]@,
    ) by {
        assert(grams_view(ls[p].ngrams@).len() == ls[p].ngrams@.len());
        assert(grams_view(t[l].ngrams@).len() == t[l].ngrams@.len());
        assert(grams_view(ls[p].ngrams@)[k] == grams_view(t[l].ngrams@)[k]);
        assert(ls[p].ngrams@[k]@ == t[l].ngrams@[k]@);
        assert(occurs_in(cs[l], t[l].ngrams@[k]@));
        assert(grams_view(cand).contains(t[l].ngrams@[k]@));
    }
    lemma_covered_is_matched(ls, cand, p);
}

/// Matcher specificity: when every loaded license carries the fingerprint of
/// some license of a table trained on `cs`, a candidate that shares no n-gram
/// with any reference text matches no license.
pub proof fn lemma_unrelated_matches_nothing(
    cs: Seq<LicenseCorpus>,
    t: Seq<Fingerprint>,
    ls: Seq<InputCorpus>,
    cand: Seq<NGram>,
)
    requires
        table_sound(cs, t),
        forall|p: int| 0 <= p < ls.len() ==> exists|l: int|
            0 <= l < t.len() && grams_view((#[trigger] ls[p]).ngrams@) == grams_view(t[l].ngrams@),
        forall|l: int, g: Seq<Seq<char>>| 0 <= l < cs.len() && #[trigger] occurs_in(cs[l], g) ==> !grams_view(cand).contains(g),
    ensures
        matched_ids(ls, cand).len() == 0,
    decreases ls.len(),
{
    if ls.len() > 0 {
        let last = ls.len() - 1;
        let l = choose|l: int| 0 <= l < t.len() && grams_view(ls[last].ngrams@) == grams_view(t[l].ngrams@);
        assert(t[l].ngrams@.len() >= 3);
        assert(grams_view(ls[last].ngrams@)[0] == grams_view(t[l].ngrams@)[0]);
        assert(occurs_in(cs[l], t[l].ngrams@[0]@));
        assert(grams_view(ls[last].ngrams@).len() == ls[last].ngrams@.len());
        assert(ls[last].ngrams@[0]@ == t[l].ngrams@[0]@);
        assert(!grams_view(cand).contains(t[l].ngrams@[0]@));
        assert(!covers(ls.last(), cand));
        assert forall|p: int| 0 <= p < ls.drop_last().len() implies exists|l2: int|
            0 <= l2 < t.len() && grams_view((#[trigger] ls.drop_last()[p]).ngrams@) == grams_view(t[l2].ngrams@) by {
            assert(ls.drop_last()[p] == ls[p]);
        }
        lemma_unrelated_matches_nothing(cs, t, ls.drop_last(), cand);
    }
}

} // verus!
