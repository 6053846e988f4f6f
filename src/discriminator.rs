use vstd::prelude::*;

use crate::ngram::NGram;

verus! {

/// A named reference text and the n-grams of its canonical form, in order.
pub struct LicenseCorpus {
    pub file: String,
    pub ngrams: Vec<NGram>,
}

/// The fingerprint of one license: n-grams that pick it out among the
/// training set, and the round in which it was completed.
pub struct Fingerprint {
    pub level: u64,
    pub ngrams: Vec<NGram>,
}

/// Whether the n-gram `g` occurs in the corpus `c`.
pub open spec fn occurs_in(c: LicenseCorpus, g: Seq<Seq<char>>) -> bool {
    exists|m: int| 0 <= m < c.ngrams@.len() && (#[trigger] c.ngrams@[m])@ == g
}

/// Whether two corpora hold the same n-grams (whatever their order and count).
pub open spec fn indistinct(a: LicenseCorpus, b: LicenseCorpus) -> bool {
    forall|g: Seq<Seq<char>>| #[trigger] occurs_in(a, g) <==> #[trigger] occurs_in(b, g)
}

/// A fingerprint table trained on `cs`: one entry per corpus, each of at least
/// three distinct n-grams of its own text, at a level from one to the number of
/// corpora; an n-gram of one
/// license's fingerprint occurs in another license's text only where that other
/// license was finished at a lower level.
pub open spec fn table_sound(cs: Seq<LicenseCorpus>, t: Seq<Fingerprint>) -> bool {
    &&& t.len() == cs.len()
    &&& forall|l: int| 0 <= l < t.len() ==> (#[trigger] t[l]).ngrams@.len() >= 3 && 1 <= t[l].level <= cs.len()
    &&& fps_distinct(t)
    &&& forall|l: int, k: int|
        0 <= l < t.len() && 0 <= k < t[l].ngrams@.len() ==> occurs_in(cs[l], (#[trigger] t[l].ngrams@[k])@)
    &&& forall|l: int, l2: int, k: int|
        0 <= l < t.len() && 0 <= l2 < t.len() && l != l2 && 0 <= k < t[l].ngrams@.len()
            && #[trigger] occurs_in(cs[l2], t[l].ngrams@[k]@) ==> t[l2].level < t[l].level
}

/// Fingerprint uniqueness: an n-gram of the fingerprint of license `l` does
/// not occur in the text of any other license `l2` finished at the same level
/// as `l` or later. (A license finished earlier may share it: once a license is
/// finished, the n-grams it shared are handed to the licenses still open.)
pub proof fn lemma_fingerprint_unique(cs: Seq<LicenseCorpus>, t: Seq<Fingerprint>, l: int, l2: int, k: int)
    requires
        table_sound(cs, t),
        0 <= l < t.len(),
        0 <= l2 < t.len(),
        l != l2,
        t[l2].level >= t[l].level,
        0 <= k < t[l].ngrams@.len(),
    ensures
        !occurs_in(cs[l2], t[l].ngrams@[k]@),
{
    if occurs_in(cs[l2], t[l].ngrams@[k]@) {
        assert(t[l2].level < t[l].level);
    }
}

proof fn lemma_min_level(t: Seq<Fingerprint>, i: int) -> (m: int)
    requires
        0 < i <= t.len(),
    ensures
        0 <= m < i,
        forall|j: int| 0 <= j < i ==> t[m].level <= (#[trigger] t[j]).level,
    decreases i,
{
    if i == 1 {
        0
    } else {
        let m = lemma_min_level(t, i - 1);
        if t[i - 1].level < t[m].level { i - 1 } else { m }
    }
}

/// A sound table over at least one corpus exists only where some corpus has
/// three distinct n-grams of its own: the license of the lowest level shares
/// none of its fingerprint.
pub proof fn lemma_sound_needs_discriminable(cs: Seq<LicenseCorpus>, t: Seq<Fingerprint>)
    requires
        table_sound(cs, t),
        cs.len() > 0,
    ensures
        exists|l: int| 0 <= l < cs.len() && #[trigger] discriminable(cs, l),
{
    let m = lemma_min_level(t, t.len() as int);
    let g = t[m].ngrams@;
    assert(g.len() >= 3);
    assert forall|a: int| 0 <= a < 3 implies own_gram(cs, m, (#[trigger] g[a])@) by {
        assert(occurs_in(cs[m], t[m].ngrams@[a]@));
        assert forall|j: int| 0 <= j < cs.len() && j != m implies !#[trigger] occurs_in(cs[j], g[a]@) by {
            if occurs_in(cs[j], t[m].ngrams@[a]@) {
                assert(t[j].level < t[m].level);
                assert(t[m].level <= t[j].level);
            }
        }
    }
    assert(g[0]@ != g[1]@ && g[0]@ != g[2]@ && g[1]@ != g[2]@);
    assert(own_gram(cs, m, g[0]@) && own_gram(cs, m, g[1]@) && own_gram(cs, m, g[2]@));
    assert(discriminable(cs, m));
}

/// Fingerprint presence and size: every n-gram of the fingerprint of license
/// `l` occurs in its own text, and the fingerprint holds at least three.
pub proof fn lemma_fingerprint_present(cs: Seq<LicenseCorpus>, t: Seq<Fingerprint>, l: int, k: int)
    requires
        table_sound(cs, t),
        0 <= l < t.len(),
        0 <= k < t[l].ngrams@.len(),
    ensures
        occurs_in(cs[l], t[l].ngrams@[k]@),
        t[l].ngrams@.len() >= 3,
{
    assert(t[l].ngrams@.len() >= 3);
}

/// The number of `true` entries.
pub open spec fn num_true(s: Seq<bool>) -> nat
    decreases s.len(),
{
    if s.len() == 0 {
        0
    } else {
        num_true(s.drop_last()) + if s.last() { 1nat } else { 0nat }
    }
}

proof fn lemma_num_true_bounds(s: Seq<bool>)
    ensures
        num_true(s) <= s.len(),
        num_true(s) == s.len() ==> forall|i: int| 0 <= i < s.len() ==> #[trigger] s[i],
        (forall|i: int| 0 <= i < s.len() ==> #[trigger] s[i]) ==> num_true(s) == s.len(),
    decreases s.len(),
{
    if s.len() > 0 {
        lemma_num_true_bounds(s.drop_last());
        if forall|i: int| 0 <= i < s.len() ==> #[trigger] s[i] {
            assert forall|i: int| 0 <= i < s.drop_last().len() implies #[trigger] s.drop_last()[i] by {
                assert(s[i]);
            }
        }
        if num_true(s) == s.len() {
            assert forall|i: int| 0 <= i < s.len() implies #[trigger] s[i] by {
                if i < s.len() - 1 {
                    assert(s.drop_last()[i] == s[i]);
                }
            }
        }
    }
}

proof fn lemma_num_true_set(s: Seq<bool>, i: int)
    requires
        0 <= i < s.len(),
        !s[i],
    ensures
        num_true(s.update(i, true)) == num_true(s) + 1,
    decreases s.len(),
{
    let u = s.update(i, true);
    if i == s.len() - 1 {
        assert(u.drop_last() =~= s.drop_last());
    } else {
        assert(u.drop_last() =~= s.drop_last().update(i, true));
        lemma_num_true_set(s.drop_last(), i);
    }
}

/// Whether the index holds `g` with `j` among its owners.
spec fn indexed(grams: Seq<NGram>, owners: Seq<Vec<usize>>, g: Seq<Seq<char>>, j: int) -> bool {
    exists|k: int| 0 <= k < grams.len() && k < owners.len() && grams[k]@ == g && owners[k]@.contains(j as usize)
}

/// The position of an n-gram with the tokens of `g`, if any.
fn find_gram(grams: &Vec<NGram>, g: &NGram) -> (r: Option<usize>)
    ensures
        match r {
            Some(k) => k < grams.len() && grams@[k as int]@ == g@,
            None => forall|k: int| 0 <= k < grams.len() ==> (#[trigger] grams@[k])@ != g@,
        },
{
    let mut k: usize = 0;
    while k < grams.len()
        invariant
            k <= grams.len(),
            forall|j: int| 0 <= j < k ==> (#[trigger] grams@[j])@ != g@,
        decreases grams.len() - k,
    {
        if grams[k].same_tokens(g) {
            return Some(k);
        }
        k = k + 1;
    }
    None
}

/// The occurrence index: each distinct n-gram of the corpora once, with the
/// corpora that contain it.
fn build_index(cs: &Vec<LicenseCorpus>) -> (r: (Vec<NGram>, Vec<Vec<usize>>))
    ensures
        r.0.len() == r.1.len(),
        forall|k: int, p: int|
            0 <= k < r.1.len() && 0 <= p < r.1@[k].len() ==> (#[trigger] r.1@[k]@[p]) < cs.len()
                && occurs_in(cs@[r.1@[k]@[p] as int], r.0@[k]@),
        forall|k: int, j: int|
            0 <= k < r.0.len() && 0 <= j < cs.len() && #[trigger] occurs_in(cs@[j], r.0@[k]@)
                ==> r.1@[k]@.contains(j as usize),
        forall|k: int, a: int, b: int|
            0 <= k < r.1.len() && 0 <= a < b < r.1@[k].len() ==> (#[trigger] r.1@[k]@[a]) < (#[trigger] r.1@[k]@[b]),
        forall|k1: int, k2: int|
            0 <= k1 < r.0.len() && 0 <= k2 < r.0.len() && k1 != k2 ==> (#[trigger] r.0@[k1])@ != (#[trigger] r.0@[k2])@,
        forall|j: int, m: int|
            0 <= j < cs.len() && 0 <= m < cs@[j].ngrams.len() ==> #[trigger] indexed(r.0@, r.1@, cs@[j].ngrams@[m]@, j),
{
    let mut grams: Vec<NGram> = Vec::new();
    let mut owners: Vec<Vec<usize>> = Vec::new();
    let mut i: usize = 0;
    while i < cs.len()
        invariant
            i <= cs.len(),
            grams.len() == owners.len(),
            forall|k1: int, k2: int|
                0 <= k1 < grams.len() && 0 <= k2 < grams.len() && k1 != k2 ==> (#[trigger] grams@[k1])@
                    != (#[trigger] grams@[k2])@,
            forall|k: int, p: int|
                0 <= k < owners.len() && 0 <= p < owners@[k].len() ==> (#[trigger] owners@[k]@[p]) < i
                    && occurs_in(cs@[owners@[k]@[p] as int], grams@[k]@),
            forall|k: int, a: int, b: int|
                0 <= k < owners.len() && 0 <= a < b < owners@[k].len() ==> (#[trigger] owners@[k]@[a]) < (#[trigger] owners@[k]@[b]),
            forall|j: int, m: int|
                0 <= j < i && 0 <= m < cs@[j].ngrams.len() ==> #[trigger] indexed(grams@, owners@, cs@[j].ngrams@[m]@, j),
        decreases cs.len() - i,
    {
        let c = &cs[i];
        let mut m: usize = 0;
        assert forall|j: int, mm: int|
            (0 <= j < i && 0 <= mm < cs@[j].ngrams.len()) || (j == i && 0 <= mm < m) implies #[trigger] indexed(grams@, owners@, cs@[j].ngrams@[mm]@, j) by {
        }
        while m < c.ngrams.len()
            invariant
                i < cs.len(),
                c == cs@[i as int],
                m <= c.ngrams.len(),
                grams.len() == owners.len(),
                forall|k1: int, k2: int|
                    0 <= k1 < grams.len() && 0 <= k2 < grams.len() && k1 != k2 ==> (#[trigger] grams@[k1])@
                        != (#[trigger] grams@[k2])@,
                forall|k: int, p: int|
                    0 <= k < owners.len() && 0 <= p < owners@[k].len() ==> (#[trigger] owners@[k]@[p]) <= i
                        && occurs_in(cs@[owners@[k]@[p] as int], grams@[k]@),
                forall|k: int, a: int, b: int|
                    0 <= k < owners.len() && 0 <= a < b < owners@[k].len() ==> (#[trigger] owners@[k]@[a]) < (#[trigger] owners@[k]@[b]),
                forall|k: int|
                    0 <= k < owners.len() && owners@[k].len() > 0 ==> owners@[k]@.last() <= i,
                forall|k: int|
                    0 <= k < owners.len() && owners@[k]@.contains(i) ==> owners@[k]@.last() == i,
                forall|j: int, mm: int|
                    (0 <= j < i && 0 <= mm < cs@[j].ngrams.len()) || (j == i && 0 <= mm < m) ==> #[trigger] indexed(grams@, owners@, cs@[j].ngrams@[mm]@, j),
            decreases c.ngrams.len() - m,
        {
            let g = &c.ngrams[m];
            assert(occurs_in(cs@[i as int], g@)) by {
                assert(c.ngrams@[m as int]@ == g@);
            }
            let ghost old_grams = grams@;
            let ghost old_owners = owners@;
            let kk: usize;
            match find_gram(&grams, g) {
                Some(k) => {
                    let n_own = owners[k].len();
                    if n_own == 0 || owners[k][n_own - 1] != i {
                        let mut o = owners[k].clone();
                        proof {
                            if n_own > 0 {
                                assert(owners@[k as int]@.last() == owners@[k as int]@[n_own - 1]);
                            }
                        }
                        o.push(i);
                        assert(o@[o.len() - 1] == i);
                        assert forall|a: int, b: int| 0 <= a < b < o@.len() implies (#[trigger] o@[a]) < (#[trigger] o@[b]) by {
                            if b == o@.len() - 1 && a < b {
                                assert(owners@[k as int]@[a] <= owners@[k as int]@[n_own - 1]);
                            }
                        }
                        assert forall|x: usize| old_owners[k as int]@.contains(x) implies o@.contains(x) by {
                            let p = choose|p: int| 0 <= p < old_owners[k as int]@.len() && old_owners[k as int]@[p] == x;
                            assert(o@[p] == x);
                        }
                        owners.set(k, o);
                    } else {
                        assert(owners@[k as int]@[n_own - 1] == i);
                    }
                    kk = k;
                },
                None => {
                    grams.push(g.duplicate());
                    owners.push(vec![i]);
                    assert(owners@[owners.len() - 1]@[0] == i);
                    kk = (grams.len() - 1) as usize;
                },
            }
            assert(owners@[kk as int]@.contains(i));
            assert forall|q: int, x: usize| 0 <= q < old_owners.len() && old_owners[q]@.contains(x) implies #[trigger] owners@[q]@.contains(x) && grams@[q] == old_grams[q] by {
                if q != kk {
                    assert(owners@[q] == old_owners[q]);
                }
            }
            assert forall|j: int, mm: int|
                (0 <= j < i && 0 <= mm < cs@[j].ngrams.len()) || (j == i && 0 <= mm < m + 1) implies #[trigger] indexed(grams@, owners@, cs@[j].ngrams@[mm]@, j) by {
                if j == i && mm == m {
                    assert(grams@[kk as int]@ == cs@[j].ngrams@[mm]@);
                } else {
                    assert(indexed(old_grams, old_owners, cs@[j].ngrams@[mm]@, j));
                    let k0 = choose|k0: int| 0 <= k0 < old_grams.len() && k0 < old_owners.len()
                        && old_grams[k0]@ == cs@[j].ngrams@[mm]@ && old_owners[k0]@.contains(j as usize);
                    assert(owners@[k0]@.contains(j as usize));
                    assert(grams@[k0] == old_grams[k0]);
                }
            }
            m = m + 1;
        }
        assert forall|j: int, mm: int|
            0 <= j < i + 1 && 0 <= mm < cs@[j].ngrams.len() implies #[trigger] indexed(grams@, owners@, cs@[j].ngrams@[mm]@, j) by {
        }
        i = i + 1;
    }
    assert forall|k: int, j: int|
        0 <= k < grams.len() && 0 <= j < cs.len() && #[trigger] occurs_in(cs@[j], grams@[k]@)
            implies owners@[k]@.contains(j as usize) by {
        let mm = choose|mm: int| 0 <= mm < cs@[j].ngrams@.len() && (#[trigger] cs@[j].ngrams@[mm])@ == grams@[k]@;
        assert(indexed(grams@, owners@, cs@[j].ngrams@[mm]@, j));
        let k2 = choose|k2: int| 0 <= k2 < grams.len() && k2 < owners.len()
            && grams@[k2]@ == cs@[j].ngrams@[mm]@ && owners@[k2]@.contains(j as usize);
        if k2 != k {
            assert(grams@[k2]@ != grams@[k]@);
        }
    }
    (grams, owners)
}

/// The owners of an ambiguous n-gram, without the finished corpora.
fn without_finished(o: &Vec<usize>, finished: &Vec<bool>) -> (r: Vec<usize>)
    requires
        forall|p: int| 0 <= p < o.len() ==> (#[trigger] o@[p]) < finished.len(),
    ensures
        forall|p: int| 0 <= p < r.len() ==> o@.contains(#[trigger] r@[p]) && !finished@[r@[p] as int],
        forall|x: usize| #[trigger] o@.contains(x) && !finished@[x as int] ==> r@.contains(x),
{
    let mut r: Vec<usize> = Vec::new();
    let mut p: usize = 0;
    while p < o.len()
        invariant
            p <= o.len(),
            forall|q: int| 0 <= q < o.len() ==> (#[trigger] o@[q]) < finished.len(),
            forall|q: int| 0 <= q < r.len() ==> o@.contains(#[trigger] r@[q]) && !finished@[r@[q] as int],
            forall|q: int| 0 <= q < p && !finished@[o@[q] as int] ==> r@.contains(#[trigger] o@[q]),
        decreases o.len() - p,
    {
        let x = o[p];
        let ghost r0 = r@;
        if !finished[x] {
            r.push(x);
            assert(r@[r.len() - 1] == x);
            assert forall|q: int| 0 <= q < p && !finished@[o@[q] as int] implies r@.contains(#[trigger] o@[q]) by {
                let w = choose|w: int| 0 <= w < r0.len() && r0[w] == o@[q];
                assert(r@[w] == o@[q]);
            }
        }
        assert(o@[p as int] == x);
        p = p + 1;
    }
    r
}

/// Every owner recorded for an n-gram is a corpus that contains it.
spec fn owners_valid(cs: Seq<LicenseCorpus>, grams: Seq<NGram>, owners: Seq<Vec<usize>>) -> bool {
    &&& grams.len() == owners.len()
    &&& forall|k: int, p: int|
        0 <= k < owners.len() && 0 <= p < owners[k].len() ==> (#[trigger] owners[k]@[p]) < cs.len()
            && occurs_in(cs[owners[k]@[p] as int], grams[k]@)
}

/// A corpus that contains an n-gram and is no longer among its owners was
/// finished in an earlier round (or in this one, for the n-grams before `idx`).
spec fn missing_finished(
    cs: Seq<LicenseCorpus>,
    grams: Seq<NGram>,
    owners: Seq<Vec<usize>>,
    finished: Seq<bool>,
    fps: Seq<Fingerprint>,
    round: int,
    idx: int,
) -> bool {
    forall|k: int, j: int|
        0 <= k < grams.len() && 0 <= j < cs.len() && #[trigger] occurs_in(cs[j], grams[k]@)
            && !owners[k]@.contains(j as usize) ==> finished[j] && fps[j].level <= round && (k >= idx
            ==> fps[j].level < round)
}

/// The fingerprints built so far keep their defining properties.
spec fn fps_valid(cs: Seq<LicenseCorpus>, finished: Seq<bool>, fps: Seq<Fingerprint>, round: int) -> bool {
    &&& fps.len() == cs.len()
    &&& finished.len() == cs.len()
    &&& forall|l: int| 0 <= l < fps.len() && #[trigger] finished[l] ==> fps[l].ngrams.len() >= 3
    &&& forall|l: int|
        0 <= l < fps.len() && (#[trigger] fps[l]).ngrams.len() > 0 ==> 1 <= fps[l].level <= round
    &&& forall|l: int, k: int|
        0 <= l < fps.len() && 0 <= k < fps[l].ngrams.len() ==> occurs_in(cs[l], (#[trigger] fps[l].ngrams@[k])@)
    &&& forall|l: int, l2: int, k: int|
        0 <= l < fps.len() && 0 <= l2 < fps.len() && l != l2 && 0 <= k < fps[l].ngrams.len()
            && #[trigger] occurs_in(cs[l2], fps[l].ngrams@[k]@) ==> finished[l2] && fps[l2].level
            < fps[l].level
}

/// Corpora with the same n-grams as another are never finished nor given an n-gram.
spec fn twins_idle(cs: Seq<LicenseCorpus>, finished: Seq<bool>, fps: Seq<Fingerprint>) -> bool {
    forall|i: int, j: int|
        0 <= i < cs.len() && 0 <= j < cs.len() && i != j && #[trigger] indistinct(cs[i], cs[j])
            ==> !finished[i] && fps[i].ngrams.len() == 0
}

/// Whether `s` is the name of one of the corpora.
pub open spec fn names_corpus(cs: Seq<LicenseCorpus>, s: Seq<char>) -> bool {
    exists|i: int| 0 <= i < cs.len() && (#[trigger] cs[i]).file@ == s
}

/// Whether `s` stands in the list of names `v`.
pub open spec fn listed(v: Seq<String>, s: Seq<char>) -> bool {
    exists|p: int| 0 <= p < v.len() && (#[trigger] v[p])@ == s
}

/// The names of the corpora that are not finished, in order.
fn unfinished_names(cs: &Vec<LicenseCorpus>, finished: &Vec<bool>) -> (r: Vec<String>)
    requires
        finished.len() == cs.len(),
    ensures
        forall|p: int| 0 <= p < r.len() ==> names_corpus(cs@, (#[trigger] r@[p])@),
        forall|i: int| 0 <= i < cs.len() && !finished@[i] ==> listed(r@, (#[trigger] cs@[i]).file@),
{
    let mut r: Vec<String> = Vec::new();
    let mut q: usize = 0;
    while q < cs.len()
        invariant
            q <= cs.len(),
            finished.len() == cs.len(),
            forall|p: int| 0 <= p < r.len() ==> names_corpus(cs@, (#[trigger] r@[p])@),
            forall|i: int| 0 <= i < q && !finished@[i] ==> listed(r@, (#[trigger] cs@[i]).file@),
        decreases cs.len() - q,
    {
        let ghost r0 = r@;
        if !finished[q] {
            r.push(cs[q].file.clone());
            assert(r@[r.len() - 1]@ == cs@[q as int].file@);
            assert(names_corpus(cs@, cs@[q as int].file@));
            assert forall|i: int| 0 <= i < q && !finished@[i] implies listed(r@, (#[trigger] cs@[i]).file@) by {
                assert(listed(r0, cs@[i].file@));
                let w = choose|w: int| 0 <= w < r0.len() && (#[trigger] r0[w])@ == cs@[i].file@;
                assert(r@[w] == r0[w]);
            }
            assert(listed(r@, cs@[q as int].file@));
        }
        q = q + 1;
    }
    r
}

proof fn lemma_num_true_none(s: Seq<bool>)
    requires
        forall|i: int| 0 <= i < s.len() ==> !(#[trigger] s[i]),
    ensures
        num_true(s) == 0,
    decreases s.len(),
{
    if s.len() > 0 {
        assert forall|i: int| 0 <= i < s.drop_last().len() implies !(#[trigger] s.drop_last()[i]) by {
            assert(!s[i]);
        }
        lemma_num_true_none(s.drop_last());
    }
}

/// An n-gram whose only owner is the unfinished corpus `l`: every other corpus
/// that contains it was finished in an earlier round, and `l` has no twin.
proof fn lemma_owned_alone(
    cs: Seq<LicenseCorpus>,
    grams: Seq<NGram>,
    owners: Seq<Vec<usize>>,
    finished: Seq<bool>,
    fps: Seq<Fingerprint>,
    round: int,
    idx: int,
    l: int,
)
    requires
        owners_valid(cs, grams, owners),
        missing_finished(cs, grams, owners, finished, fps, round, idx),
        fps_valid(cs, finished, fps, round),
        twins_idle(cs, finished, fps),
        0 <= idx < grams.len(),
        owners[idx]@.len() == 1,
        owners[idx]@[0] == l,
        0 <= l < cs.len(),
        cs.len() <= usize::MAX,
        !finished[l],
    ensures
        occurs_in(cs[l], grams[idx]@),
        forall|j: int|
            0 <= j < cs.len() && j != l && #[trigger] occurs_in(cs[j], grams[idx]@) ==> finished[j]
                && fps[j].level < round,
        forall|j: int| 0 <= j < cs.len() && j != l ==> !#[trigger] indistinct(cs[l], cs[j]),
{
    assert(owners[idx]@[0] == l);
    assert forall|j: int|
        0 <= j < cs.len() && j != l && #[trigger] occurs_in(cs[j], grams[idx]@) implies finished[j]
            && fps[j].level < round by {
        if owners[idx]@.contains(j as usize) {
            let p = choose|p: int| 0 <= p < owners[idx]@.len() && owners[idx]@[p] == j as usize;
            assert(p == 0);
        }
    }
    assert forall|j: int| 0 <= j < cs.len() && j != l implies !#[trigger] indistinct(cs[l], cs[j]) by {
        if indistinct(cs[l], cs[j]) {
            assert(occurs_in(cs[l], grams[idx]@) ==> occurs_in(cs[j], grams[idx]@));
            assert(indistinct(cs[j], cs[l]));
        }
    }
}

/// Appending an n-gram that only `l` still owns to `l`'s fingerprint, at the
/// current round, keeps the invariants, also with `l` finished.
proof fn lemma_append_keeps(
    cs: Seq<LicenseCorpus>,
    grams: Seq<NGram>,
    owners: Seq<Vec<usize>>,
    finished: Seq<bool>,
    fps0: Seq<Fingerprint>,
    fps: Seq<Fingerprint>,
    round: int,
    idx: int,
    l: int,
)
    requires
        fps_valid(cs, finished, fps0, round),
        twins_idle(cs, finished, fps0),
        missing_finished(cs, grams, owners, finished, fps0, round, idx),
        0 <= idx < grams.len(),
        0 <= l < cs.len(),
        1 <= round,
        !finished[l],
        occurs_in(cs[l], grams[idx]@),
        forall|j: int|
            0 <= j < cs.len() && j != l && #[trigger] occurs_in(cs[j], grams[idx]@) ==> finished[j]
                && fps0[j].level < round,
        forall|j: int| 0 <= j < cs.len() && j != l ==> !#[trigger] indistinct(cs[l], cs[j]),
        fps.len() == fps0.len(),
        forall|j: int| 0 <= j < fps.len() && j != l ==> fps[j] == fps0[j],
        fps[l].level == round,
        fps[l].ngrams@.len() == fps0[l].ngrams@.len() + 1,
        forall|k: int| 0 <= k < fps0[l].ngrams@.len() ==> fps[l].ngrams@[k] == fps0[l].ngrams@[k],
        fps[l].ngrams@[fps0[l].ngrams@.len() as int]@ == grams[idx]@,
    ensures
        fps_valid(cs, finished, fps, round),
        twins_idle(cs, finished, fps),
        missing_finished(cs, grams, owners, finished, fps, round, idx),
        fps[l].ngrams@.len() >= 3 ==> fps_valid(cs, finished.update(l, true), fps, round),
        twins_idle(cs, finished.update(l, true), fps),
        missing_finished(cs, grams, owners, finished.update(l, true), fps, round, idx),
        forall|v: int| #[trigger] level_used(finished, fps0, v) ==> level_used(finished, fps, v) && level_used(
            finished.update(l, true),
            fps,
            v,
        ),
{
    assert forall|v: int| #[trigger] level_used(finished, fps0, v) implies level_used(finished, fps, v) && level_used(
        finished.update(l, true),
        fps,
        v,
    ) by {
        let w = choose|w: int| 0 <= w < finished.len() && w < fps0.len() && finished[w] && (#[trigger] fps0[w]).level == v;
        assert(w != l);
        assert(fps[w] == fps0[w]);
        assert(finished.update(l, true)[w]);
    }
    let fin2 = finished.update(l, true);
    let old_len = fps0[l].ngrams@.len() as int;
    assert forall|ll: int, k: int|
        0 <= ll < fps.len() && 0 <= k < fps[ll].ngrams.len() implies occurs_in(cs[ll], (#[trigger] fps[ll].ngrams@[k])@) by {
        if ll == l && k < old_len {
            assert(fps0[l].ngrams@[k] == fps[l].ngrams@[k]);
        }
    }
    assert forall|ll: int, l2: int, k: int|
        0 <= ll < fps.len() && 0 <= l2 < fps.len() && ll != l2 && 0 <= k < fps[ll].ngrams.len()
            && #[trigger] occurs_in(cs[l2], fps[ll].ngrams@[k]@) implies fin2[l2] && finished[l2]
            && fps[l2].level < fps[ll].level by {
        if ll == l {
            if k < old_len {
                assert(fps0[l].ngrams@[k] == fps[l].ngrams@[k]);
                assert(occurs_in(cs[l2], fps0[ll].ngrams@[k]@));
            }
        } else {
            assert(fps0[ll] == fps[ll]);
            assert(occurs_in(cs[l2], fps0[ll].ngrams@[k]@));
        }
    }
    assert forall|ll: int|
        0 <= ll < fps.len() && (#[trigger] fps[ll]).ngrams.len() > 0 implies 1 <= fps[ll].level <= round by {
        if ll != l {
            assert(fps0[ll] == fps[ll]);
        }
    }
    assert forall|ll: int| 0 <= ll < fps.len() && #[trigger] finished[ll] implies fps[ll].ngrams.len() >= 3 by {
        assert(ll != l);
        assert(fps0[ll] == fps[ll]);
    }
    assert forall|i: int, j: int|
        0 <= i < cs.len() && 0 <= j < cs.len() && i != j && #[trigger] indistinct(cs[i], cs[j])
            implies !fin2[i] && fps[i].ngrams.len() == 0 by {
        if i == l {
            assert(!indistinct(cs[l], cs[j]));
        } else {
            assert(fps0[i] == fps[i]);
        }
    }
    assert forall|k: int, j: int|
        0 <= k < grams.len() && 0 <= j < cs.len() && #[trigger] occurs_in(cs[j], grams[k]@)
            && !owners[k]@.contains(j as usize) implies finished[j] && fps[j].level <= round && (k >= idx
            ==> fps[j].level < round) by {
        assert(j != l);
        assert(fps0[j] == fps[j]);
    }
    if fps[l].ngrams@.len() >= 3 {
        assert forall|ll: int| 0 <= ll < fps.len() && #[trigger] fin2[ll] implies fps[ll].ngrams.len() >= 3 by {
            if ll != l {
                assert(fps0[ll] == fps[ll]);
            }
        }
    }
}

/// Dropping the finished owners of the n-gram at `idx` keeps the invariants.
proof fn lemma_drop_finished(
    cs: Seq<LicenseCorpus>,
    grams: Seq<NGram>,
    o0: Seq<Vec<usize>>,
    owners: Seq<Vec<usize>>,
    finished: Seq<bool>,
    fps: Seq<Fingerprint>,
    round: int,
    idx: int,
)
    requires
        owners_valid(cs, grams, o0),
        missing_finished(cs, grams, o0, finished, fps, round, idx),
        fps_valid(cs, finished, fps, round),
        0 <= idx < grams.len(),
        cs.len() <= usize::MAX,
        owners.len() == o0.len(),
        forall|k: int| 0 <= k < owners.len() && k != idx ==> owners[k] == o0[k],
        forall|p: int|
            0 <= p < owners[idx].len() ==> o0[idx]@.contains(#[trigger] owners[idx]@[p]) && !finished[owners[idx]@[p] as int],
        forall|x: usize| #[trigger] o0[idx]@.contains(x) && !finished[x as int] ==> owners[idx]@.contains(x),
    ensures
        owners_valid(cs, grams, owners),
        missing_finished(cs, grams, owners, finished, fps, round, idx + 1),
{
    assert forall|k: int, p: int|
        0 <= k < owners.len() && 0 <= p < owners[k].len() implies (#[trigger] owners[k]@[p]) < cs.len()
            && occurs_in(cs[owners[k]@[p] as int], grams[k]@) by {
        if k == idx {
            let x = owners[k]@[p];
            assert(o0[idx]@.contains(x));
            let p0 = choose|p0: int| 0 <= p0 < o0[idx]@.len() && o0[idx]@[p0] == x;
            assert(o0[k]@[p0] == x);
        } else {
            assert(owners[k] == o0[k]);
            assert(o0[k]@[p] == owners[k]@[p]);
        }
    }
    assert forall|k: int, j: int|
        0 <= k < grams.len() && 0 <= j < cs.len() && #[trigger] occurs_in(cs[j], grams[k]@)
            && !owners[k]@.contains(j as usize) implies finished[j] && fps[j].level <= round && (k >= idx + 1
            ==> fps[j].level < round) by {
        if k == idx {
            if o0[idx]@.contains(j as usize) {
                assert((j as usize) as int == j);
                assert(finished[j]);
            }
        } else {
            assert(owners[k] == o0[k]);
        }
    }
}

/// Once every corpus is finished, the fingerprints form a sound table and no
/// two corpora are twins.
proof fn lemma_all_finished(cs: Seq<LicenseCorpus>, finished: Seq<bool>, fps: Seq<Fingerprint>, round: int)
    requires
        fps_valid(cs, finished, fps, round),
        fps_distinct(fps),
        round <= cs.len() || cs.len() == 0,
        twins_idle(cs, finished, fps),
        forall|i: int| 0 <= i < finished.len() ==> #[trigger] finished[i],
    ensures
        table_sound(cs, fps),
        forall|i: int, j: int|
            0 <= i < cs.len() && 0 <= j < cs.len() && i != j ==> !#[trigger] indistinct(cs[i], cs[j]),
{
    assert forall|l: int| 0 <= l < fps.len() implies (#[trigger] fps[l]).ngrams@.len() >= 3 && 1 <= fps[l].level <= cs.len() by {
        assert(finished[l]);
    }
    assert forall|i: int, j: int|
        0 <= i < cs.len() && 0 <= j < cs.len() && i != j implies !#[trigger] indistinct(cs[i], cs[j]) by {
        assert(finished[i]);
    }
}

/// Whether `g` occurs in corpus `l` and in no other corpus.
pub open spec fn own_gram(cs: Seq<LicenseCorpus>, l: int, g: Seq<Seq<char>>) -> bool {
    &&& occurs_in(cs[l], g)
    &&& forall|j: int| 0 <= j < cs.len() && j != l ==> !#[trigger] occurs_in(cs[j], g)
}

/// Whether corpus `l` has three distinct n-grams that no other corpus has.
pub open spec fn discriminable(cs: Seq<LicenseCorpus>, l: int) -> bool {
    exists|g1: Seq<Seq<char>>, g2: Seq<Seq<char>>, g3: Seq<Seq<char>>|
        #![trigger own_gram(cs, l, g1), own_gram(cs, l, g2), own_gram(cs, l, g3)]
        g1 != g2 && g1 != g3 && g2 != g3 && own_gram(cs, l, g1) && own_gram(cs, l, g2) && own_gram(cs, l, g3)
}

/// The number of entries before `upto` whose only owner is `l`.
spec fn count_sole(o: Seq<Vec<usize>>, l: int, upto: int) -> nat
    decreases upto,
{
    if upto <= 0 {
        0
    } else {
        count_sole(o, l, upto - 1) + if o[upto - 1]@ == seq![l as usize] { 1nat } else { 0nat }
    }
}

proof fn lemma_count_sole_grows(o: Seq<Vec<usize>>, l: int, a: int, b: int)
    requires
        0 <= a <= b,
    ensures
        count_sole(o, l, a) <= count_sole(o, l, b),
        a < b && o[a]@ == seq![l as usize] ==> count_sole(o, l, a) + 1 <= count_sole(o, l, b),
    decreases b - a,
{
    if a < b {
        lemma_count_sole_grows(o, l, a, b - 1);
        if o[a]@ == seq![l as usize] && a == b - 1 {
            assert(count_sole(o, l, b) == count_sole(o, l, a) + 1);
        }
    }
}

proof fn lemma_count_witness(o: Seq<Vec<usize>>, l: int, upto: int, c: nat) -> (k: int)
    requires
        count_sole(o, l, upto) > c,
    ensures
        0 <= k < upto,
        o[k]@ == seq![l as usize],
        count_sole(o, l, k) == c,
    decreases upto,
{
    if upto <= 0 {
        assert(false);
        0
    } else if count_sole(o, l, upto - 1) > c {
        lemma_count_witness(o, l, upto - 1, c)
    } else {
        upto - 1
    }
}

/// Three entries owned by `l` alone make `l` discriminable.
proof fn lemma_sole_discriminable(cs: Seq<LicenseCorpus>, grams: Seq<NGram>, owners: Seq<Vec<usize>>, l: int)
    requires
        0 <= l < cs.len(),
        cs.len() <= usize::MAX,
        grams.len() == owners.len(),
        count_sole(owners, l, grams.len() as int) >= 3,
        forall|k: int, j: int|
            0 <= k < grams.len() && 0 <= j < cs.len() && #[trigger] occurs_in(cs[j], grams[k]@)
                ==> owners[k]@.contains(j as usize),
        forall|k: int, p: int|
            0 <= k < owners.len() && 0 <= p < owners[k].len() ==> (#[trigger] owners[k]@[p]) < cs.len()
                && occurs_in(cs[owners[k]@[p] as int], grams[k]@),
        forall|k1: int, k2: int|
            0 <= k1 < grams.len() && 0 <= k2 < grams.len() && k1 != k2 ==> (#[trigger] grams[k1])@ != (#[trigger] grams[k2])@,
    ensures
        discriminable(cs, l),
{
    let n = grams.len() as int;
    let k1 = lemma_count_witness(owners, l, n, 0);
    let k2 = lemma_count_witness(owners, l, n, 1);
    let k3 = lemma_count_witness(owners, l, n, 2);
    assert forall|k: int| 0 <= k < n && owners[k]@ == seq![l as usize] implies own_gram(cs, l, (#[trigger] grams[k])@) by {
        assert(owners[k]@[0] == l as usize);
        assert forall|j: int| 0 <= j < cs.len() && j != l implies !#[trigger] occurs_in(cs[j], grams[k]@) by {
            if occurs_in(cs[j], grams[k]@) {
                assert(owners[k]@.contains(j as usize));
                let p = choose|p: int| 0 <= p < owners[k]@.len() && owners[k]@[p] == j as usize;
                assert(p == 0);
            }
        }
    }
    assert(own_gram(cs, l, grams[k1]@) && own_gram(cs, l, grams[k2]@) && own_gram(cs, l, grams[k3]@));
    assert(grams[k1]@ != grams[k2]@ && grams[k1]@ != grams[k3]@ && grams[k2]@ != grams[k3]@);
}

/// A discriminable corpus has three entries of the index owned by it alone.
proof fn lemma_three_sole(cs: Seq<LicenseCorpus>, grams: Seq<NGram>, owners: Seq<Vec<usize>>, l: int)
    requires
        owners_valid(cs, grams, owners),
        cs.len() <= usize::MAX,
        0 <= l < cs.len(),
        discriminable(cs, l),
        forall|k: int, a: int, b: int|
            0 <= k < owners.len() && 0 <= a < b < owners[k].len() ==> (#[trigger] owners[k]@[a]) < (#[trigger] owners[k]@[b]),
        forall|k1: int, k2: int|
            0 <= k1 < grams.len() && 0 <= k2 < grams.len() && k1 != k2 ==> (#[trigger] grams[k1])@ != (#[trigger] grams[k2])@,
        forall|j: int, m: int|
            0 <= j < cs.len() && 0 <= m < cs[j].ngrams.len() ==> #[trigger] indexed(grams, owners, cs[j].ngrams@[m]@, j),
    ensures
        count_sole(owners, l, grams.len() as int) >= 3,
{
    let (g1, g2, g3) = choose|g1: Seq<Seq<char>>, g2: Seq<Seq<char>>, g3: Seq<Seq<char>>|
        #![trigger own_gram(cs, l, g1), own_gram(cs, l, g2), own_gram(cs, l, g3)]
        g1 != g2 && g1 != g3 && g2 != g3 && own_gram(cs, l, g1) && own_gram(cs, l, g2) && own_gram(cs, l, g3);
    let k1 = lemma_sole_entry(cs, grams, owners, l, g1);
    let k2 = lemma_sole_entry(cs, grams, owners, l, g2);
    let k3 = lemma_sole_entry(cs, grams, owners, l, g3);
    let n = grams.len() as int;
    let (a, b, c) = if k1 < k2 {
        if k2 < k3 { (k1, k2, k3) } else if k1 < k3 { (k1, k3, k2) } else { (k3, k1, k2) }
    } else {
        if k1 < k3 { (k2, k1, k3) } else if k2 < k3 { (k2, k3, k1) } else { (k3, k2, k1) }
    };
    lemma_count_sole_grows(owners, l, 0, a);
    lemma_count_sole_grows(owners, l, a, b);
    lemma_count_sole_grows(owners, l, b, c);
    lemma_count_sole_grows(owners, l, c, n);
}

/// The entry of an n-gram of `l`'s own is owned by `l` alone.
proof fn lemma_sole_entry(cs: Seq<LicenseCorpus>, grams: Seq<NGram>, owners: Seq<Vec<usize>>, l: int, g: Seq<Seq<char>>) -> (k: int)
    requires
        owners_valid(cs, grams, owners),
        cs.len() <= usize::MAX,
        0 <= l < cs.len(),
        own_gram(cs, l, g),
        forall|k: int, a: int, b: int|
            0 <= k < owners.len() && 0 <= a < b < owners[k].len() ==> (#[trigger] owners[k]@[a]) < (#[trigger] owners[k]@[b]),
        forall|j: int, m: int|
            0 <= j < cs.len() && 0 <= m < cs[j].ngrams.len() ==> #[trigger] indexed(grams, owners, cs[j].ngrams@[m]@, j),
    ensures
        0 <= k < grams.len(),
        grams[k]@ == g,
        owners[k]@ == seq![l as usize],
{
    let m = choose|m: int| 0 <= m < cs[l].ngrams@.len() && (#[trigger] cs[l].ngrams@[m])@ == g;
    assert(indexed(grams, owners, cs[l].ngrams@[m]@, l));
    let k = choose|k: int| 0 <= k < grams.len() && k < owners.len() && grams[k]@ == g && owners[k]@.contains(l as usize);
    let o = owners[k]@;
    assert forall|p: int| 0 <= p < o.len() implies o[p] == l as usize by {
        assert(occurs_in(cs[o[p] as int], grams[k]@));
        if o[p] as int != l {
            assert(!occurs_in(cs[o[p] as int], g));
        }
    }
    if o.len() > 1 {
        assert(o[0] < o[1]);
    }
    assert(o =~= seq![l as usize]);
    k
}

/// Whether some license of the table has level `v`.
pub open spec fn level_taken(t: Seq<Fingerprint>, v: int) -> bool {
    exists|l: int| 0 <= l < t.len() && (#[trigger] t[l]).level == v
}

/// Whether some finished corpus was finished at level `v`.
spec fn level_used(finished: Seq<bool>, fps: Seq<Fingerprint>, v: int) -> bool {
    exists|l: int| 0 <= l < finished.len() && l < fps.len() && finished[l] && (#[trigger] fps[l]).level == v
}

proof fn lemma_num_true_diff(a: Seq<bool>, b: Seq<bool>)
    requires
        a.len() == b.len(),
        forall|i: int| 0 <= i < b.len() && #[trigger] b[i] ==> a[i],
        num_true(a) > num_true(b),
    ensures
        exists|i: int| 0 <= i < a.len() && #[trigger] a[i] && !b[i],
    decreases a.len(),
{
    if a.len() > 0 {
        let n = a.len() - 1;
        if a[n] && !b[n] {
        } else {
            assert forall|i: int| 0 <= i < b.drop_last().len() && #[trigger] b.drop_last()[i] implies a.drop_last()[i] by {
                assert(b[i]);
            }
            lemma_num_true_diff(a.drop_last(), b.drop_last());
            let i = choose|i: int| 0 <= i < a.drop_last().len() && #[trigger] a.drop_last()[i] && !b.drop_last()[i];
            assert(a[i] && !b[i]);
        }
    }
}

/// Whether `g` is the n-gram of an entry that has left the index.
spec fn retired(grams: Seq<NGram>, alive: Seq<bool>, g: Seq<Seq<char>>) -> bool {
    exists|e: int| 0 <= e < grams.len() && e < alive.len() && !alive[e] && (#[trigger] grams[e])@ == g
}

/// Every fingerprint n-gram comes from an entry that has left the index.
spec fn fps_retired(grams: Seq<NGram>, alive: Seq<bool>, fps: Seq<Fingerprint>) -> bool {
    forall|l: int, k: int| 0 <= l < fps.len() && 0 <= k < fps[l].ngrams@.len() ==> retired(grams, alive, (#[trigger] fps[l].ngrams@[k])@)
}

/// The n-grams of each fingerprint are distinct.
pub open spec fn fps_distinct(fps: Seq<Fingerprint>) -> bool {
    forall|l: int, a: int, b: int|
        0 <= l < fps.len() && 0 <= a < fps[l].ngrams@.len() && 0 <= b < fps[l].ngrams@.len() && a != b
            ==> (#[trigger] fps[l].ngrams@[a])@ != (#[trigger] fps[l].ngrams@[b])@
}

/// Retiring the entry at `idx`, after appending its n-gram to fingerprint `l`
/// (or appending nothing, with `l` out of range), keeps the fingerprint
/// n-grams retired and distinct.
proof fn lemma_retire_append(
    grams: Seq<NGram>,
    alive0: Seq<bool>,
    alive: Seq<bool>,
    fps0: Seq<Fingerprint>,
    fps: Seq<Fingerprint>,
    idx: int,
    l: int,
)
    requires
        0 <= idx < grams.len(),
        alive0.len() == grams.len(),
        alive0[idx],
        alive == alive0.update(idx, false),
        fps_retired(grams, alive0, fps0),
        fps_distinct(fps0),
        fps.len() == fps0.len(),
        forall|j: int| 0 <= j < fps.len() && j != l ==> fps[j] == fps0[j],
        0 <= l < fps.len() ==> {
            &&& fps[l].ngrams@.len() == fps0[l].ngrams@.len() + 1
            &&& forall|k: int| 0 <= k < fps0[l].ngrams@.len() ==> fps[l].ngrams@[k] == fps0[l].ngrams@[k]
            &&& fps[l].ngrams@[fps0[l].ngrams@.len() as int]@ == grams[idx]@
        },
        forall|k1: int, k2: int|
            0 <= k1 < grams.len() && 0 <= k2 < grams.len() && k1 != k2 ==> (#[trigger] grams[k1])@ != (#[trigger] grams[k2])@,
    ensures
        fps_retired(grams, alive, fps),
        fps_distinct(fps),
{
    assert forall|g: Seq<Seq<char>>| retired(grams, alive0, g) implies retired(grams, alive, g) && g != grams[idx]@ by {
        let e = choose|e: int| 0 <= e < grams.len() && e < alive0.len() && !alive0[e] && (#[trigger] grams[e])@ == g;
        assert(!alive[e]);
        assert(e != idx);
    }
    assert(retired(grams, alive, grams[idx]@)) by {
        assert(!alive[idx]);
    }
    assert forall|ll: int, k: int| 0 <= ll < fps.len() && 0 <= k < fps[ll].ngrams@.len() implies retired(grams, alive, (#[trigger] fps[ll].ngrams@[k])@) by {
        if ll != l {
            assert(fps[ll] == fps0[ll]);
            assert(retired(grams, alive0, fps0[ll].ngrams@[k]@));
        } else if k < fps0[l].ngrams@.len() {
            assert(fps[l].ngrams@[k] == fps0[l].ngrams@[k]);
            assert(retired(grams, alive0, fps0[l].ngrams@[k]@));
        }
    }
    assert forall|ll: int, a: int, b: int|
        0 <= ll < fps.len() && 0 <= a < fps[ll].ngrams@.len() && 0 <= b < fps[ll].ngrams@.len() && a != b
            implies (#[trigger] fps[ll].ngrams@[a])@ != (#[trigger] fps[ll].ngrams@[b])@ by {
        if ll != l {
            assert(fps[ll] == fps0[ll]);
        } else {
            let m = fps0[l].ngrams@.len() as int;
            if a < m && b < m {
                assert(fps[l].ngrams@[a] == fps0[l].ngrams@[a]);
                assert(fps[l].ngrams@[b] == fps0[l].ngrams@[b]);
            } else if a < m {
                assert(fps[l].ngrams@[a] == fps0[l].ngrams@[a]);
                assert(retired(grams, alive0, fps0[l].ngrams@[a]@));
            } else {
                assert(fps[l].ngrams@[b] == fps0[l].ngrams@[b]);
                assert(retired(grams, alive0, fps0[l].ngrams@[b]@));
            }
        }
    }
}

/// Trains the fingerprint table: round after round, every n-gram that only one
/// unfinished corpus still owns is given to that corpus and leaves the index
/// (so a fingerprint never holds an n-gram twice); a corpus is finished once it
/// holds three; owners that are finished are dropped from the other n-grams.
/// The table comes back in the order of `cs`. A round in which no corpus is
/// finished ends the training with the names of the unfinished corpora.
pub fn train(cs: &Vec<LicenseCorpus>) -> (r: Result<Vec<Fingerprint>, Vec<String>>)
    ensures
        r matches Ok(t) ==> table_sound(cs@, t@),
        r matches Err(rem) ==> rem.len() > 0 && forall|p: int|
            0 <= p < rem.len() ==> names_corpus(cs@, (#[trigger] rem@[p])@),
        forall|i: int, j: int|
            0 <= i < cs.len() && 0 <= j < cs.len() && i != j && #[trigger] indistinct(cs@[i], cs@[j])
                ==> (r matches Err(rem) && listed(rem@, cs@[i].file@)),
        (forall|l: int| 0 <= l < cs.len() ==> #[trigger] discriminable(cs@, l)) ==> (r matches Ok(t)
            && forall|l: int| 0 <= l < t.len() ==> (#[trigger] t@[l]).level == 1),
        r matches Ok(t) ==> forall|l: int, v: int|
            #![trigger t@[l], level_taken(t@, v)]
            0 <= l < t.len() && 1 <= v <= t@[l].level ==> level_taken(t@, v),
        cs.len() > 0 && (forall|l: int| 0 <= l < cs.len() ==> !#[trigger] discriminable(cs@, l)) ==> (r matches Err(
            rem) && forall|i: int| 0 <= i < cs.len() ==> listed(rem@, (#[trigger] cs@[i]).file@)),
{
    let n = cs.len();
    let (grams, mut owners) = build_index(cs);
    let ghost owners1 = owners@;
    let ghost all_disc = forall|l: int| 0 <= l < cs.len() ==> #[trigger] discriminable(cs@, l);
    let ghost none_disc = cs.len() > 0 && forall|l: int| 0 <= l < cs.len() ==> !#[trigger] discriminable(cs@, l);
    proof {
        if all_disc {
            assert forall|l: int| 0 <= l < n implies count_sole(owners1, l, grams.len() as int) >= 3 by {
                assert(discriminable(cs@, l));
                lemma_three_sole(cs@, grams@, owners1, l);
            }
        }
    }
    let mut alive: Vec<bool> = Vec::new();
    let mut finished: Vec<bool> = Vec::new();
    let mut fps: Vec<Fingerprint> = Vec::new();
    let mut q: usize = 0;
    while q < grams.len()
        invariant
            q <= grams.len(),
            alive.len() == q,
            forall|k: int| 0 <= k < q ==> #[trigger] alive@[k],
        decreases grams.len() - q,
    {
        alive.push(true);
        q = q + 1;
    }
    q = 0;
    while q < n
        invariant
            n == cs.len(),
            q <= n,
            alive.len() == grams.len(),
            forall|k: int| 0 <= k < grams.len() ==> #[trigger] alive@[k],
            finished.len() == q,
            fps.len() == q,
            forall|l: int| 0 <= l < q ==> !(#[trigger] finished@[l]),
            forall|l: int| 0 <= l < q ==> (#[trigger] fps@[l]).ngrams.len() == 0,
        decreases n - q,
    {
        finished.push(false);
        fps.push(Fingerprint { level: 0, ngrams: Vec::new() });
        q = q + 1;
    }
    proof {
        lemma_num_true_bounds(finished@);
        lemma_num_true_none(finished@);
    }
    let mut n_fin: usize = 0;
    let mut round: u64 = 1;
    loop
        invariant
            n == cs.len(),
            alive.len() == grams.len(),
            owners_valid(cs@, grams@, owners@),
            missing_finished(cs@, grams@, owners@, finished@, fps@, round as int, 0),
            fps_valid(cs@, finished@, fps@, round as int),
            twins_idle(cs@, finished@, fps@),
            n_fin == num_true(finished@),
            n_fin <= n,
            n_fin < n || n == 0,
            1 <= round <= n_fin + 1,
            fps_retired(grams@, alive@, fps@),
            fps_distinct(fps@),
            forall|k1: int, k2: int|
                0 <= k1 < grams.len() && 0 <= k2 < grams.len() && k1 != k2 ==> (#[trigger] grams@[k1])@ != (#[trigger] grams@[k2])@,
            forall|l: int| 0 <= l < n && !finished@[l] ==> (#[trigger] fps@[l]).ngrams.len() <= 2,
            owners1.len() == grams.len(),
            round == 1 ==> forall|k: int| 0 <= k < grams.len() ==> #[trigger] alive@[k] && owners@[k] == owners1[k],
            all_disc ==> round == 1,
            all_disc ==> forall|l: int| 0 <= l < n ==> count_sole(owners1, l, grams.len() as int) >= 3,
            all_disc == forall|l: int| 0 <= l < cs.len() ==> #[trigger] discriminable(cs@, l),
            round == 1 ==> forall|l: int| 0 <= l < n ==> !(#[trigger] finished@[l]) && fps@[l].ngrams.len() == 0,
            forall|k: int, j: int|
                0 <= k < grams.len() && 0 <= j < cs.len() && #[trigger] occurs_in(cs@[j], grams@[k]@)
                    ==> owners1[k]@.contains(j as usize),
            owners_valid(cs@, grams@, owners1),
            none_disc ==> round == 1,
            none_disc == (cs.len() > 0 && forall|l: int| 0 <= l < cs.len() ==> !#[trigger] discriminable(cs@, l)),
            round == 1 ==> n_fin == 0,
            forall|v: int| 1 <= v < round ==> #[trigger] level_used(finished@, fps@, v),
        decreases n - n_fin,
    {
        if n_fin == n {
            proof {
                lemma_num_true_bounds(finished@);
                lemma_all_finished(cs@, finished@, fps@, round as int);
                assert forall|l: int, v: int|
                    #![trigger fps@[l], level_taken(fps@, v)]
                    0 <= l < fps.len() && 1 <= v <= fps@[l].level implies level_taken(fps@, v) by {
                    assert(level_used(finished@, fps@, v));
                }
                if cs.len() > 0 {
                    lemma_sound_needs_discriminable(cs@, fps@);
                }
            }
            return Ok(fps);
        }
        let before = n_fin;
        let ghost fin_start = finished@;
        let mut idx: usize = 0;
        while idx < grams.len()
            invariant
                n == cs.len(),
                idx <= grams.len(),
                alive.len() == grams.len(),
                owners_valid(cs@, grams@, owners@),
                missing_finished(cs@, grams@, owners@, finished@, fps@, round as int, idx as int),
                fps_valid(cs@, finished@, fps@, round as int),
                twins_idle(cs@, finished@, fps@),
                n_fin == num_true(finished@),
                before <= n_fin <= n,
                before < n,
                1 <= round <= before + 1,
                fps_retired(grams@, alive@, fps@),
                fps_distinct(fps@),
                forall|k1: int, k2: int|
                    0 <= k1 < grams.len() && 0 <= k2 < grams.len() && k1 != k2 ==> (#[trigger] grams@[k1])@ != (#[trigger] grams@[k2])@,
                forall|l: int| 0 <= l < n && !finished@[l] ==> (#[trigger] fps@[l]).ngrams.len() <= 2,
                owners1.len() == grams.len(),
                round == 1 ==> forall|k: int| idx <= k < grams.len() ==> #[trigger] alive@[k] && owners@[k] == owners1[k],
                round == 1 ==> forall|l: int| 0 <= l < n && !finished@[l] ==> (#[trigger] fps@[l]).ngrams.len()
                    == count_sole(owners1, l, idx as int),
                round == 1 ==> forall|l: int| 0 <= l < n && #[trigger] finished@[l] ==> count_sole(owners1, l, idx as int) >= 3,
                forall|k: int, j: int|
                    0 <= k < grams.len() && 0 <= j < cs.len() && #[trigger] occurs_in(cs@[j], grams@[k]@)
                        ==> owners1[k]@.contains(j as usize),
                owners_valid(cs@, grams@, owners1),
                all_disc ==> round == 1,
                all_disc ==> forall|l: int| 0 <= l < n ==> count_sole(owners1, l, grams.len() as int) >= 3,
                all_disc == forall|l: int| 0 <= l < cs.len() ==> #[trigger] discriminable(cs@, l),
                none_disc ==> round == 1,
                none_disc == (cs.len() > 0 && forall|l: int| 0 <= l < cs.len() ==> !#[trigger] discriminable(cs@, l)),
                round == 1 ==> before == 0,
                forall|v: int| 1 <= v < round ==> #[trigger] level_used(finished@, fps@, v),
                fin_start.len() == n,
                forall|i: int| 0 <= i < n && #[trigger] fin_start[i] ==> finished@[i],
                num_true(fin_start) == before,
                forall|i: int| 0 <= i < n && #[trigger] finished@[i] && !fin_start[i] ==> fps@[i].level == round,
            decreases grams.len() - idx,
        {
            proof {
                assert forall|l: int| 0 <= l < n implies #[trigger] count_sole(owners1, l, idx + 1) == count_sole(owners1, l, idx as int)
                    + if owners1[idx as int]@ == seq![l as usize] { 1nat } else { 0nat } by {
                }
            }
            let ghost fps_before = fps@;
            let ghost fin_before = finished@;
            let ghost alive_before = alive@;
            let ghost owners_before = owners@;
            if alive[idx] {
                if owners[idx].len() == 1 {
                    let l = owners[idx][0];
                    assert(owners@[idx as int]@[0] == l);
                    assert(owners@[idx as int]@ =~= seq![l]);
                    assert(occurs_in(cs@[l as int], grams@[idx as int]@));
                    if finished[l] {
                        let ghost alive0 = alive@;
                        alive.set(idx, false);
                        proof {
                            lemma_retire_append(grams@, alive0, alive@, fps@, fps@, idx as int, -1);
                        }
                    } else {
                        proof {
                            lemma_owned_alone(cs@, grams@, owners@, finished@, fps@, round as int, idx as int, l as int);
                        }
                        let ghost fps0 = fps@;
                        let g = grams[idx].duplicate();
                        let mut fp = Fingerprint { level: 0, ngrams: Vec::new() };
                        std::mem::swap(&mut fp, &mut fps[l]);
                        assert(fp == fps0[l as int]);
                        let had = fp.ngrams.len() > 0;
                        fp.ngrams.push(g);
                        fp.level = round;
                        let len = fp.ngrams.len();
                        fps.set(l, fp);
                        proof {
                            lemma_append_keeps(cs@, grams@, owners@, finished@, fps0, fps@, round as int, idx as int, l as int);
                        }
                        let ghost alive0 = alive@;
                        alive.set(idx, false);
                        proof {
                            lemma_retire_append(grams@, alive0, alive@, fps0, fps@, idx as int, l as int);
                        }
                        if had && len >= 3 {
                            proof {
                                lemma_num_true_set(finished@, l as int);
                                lemma_num_true_bounds(finished@.update(l as int, true));
                            }
                            finished.set(l, true);
                            n_fin = n_fin + 1;
                        }
                    }
                } else {
                    let ghost o0 = owners@;
                    let o = without_finished(&owners[idx], &finished);
                    owners.set(idx, o);
                    proof {
                        lemma_drop_finished(cs@, grams@, o0, owners@, finished@, fps@, round as int, idx as int);
                    }
                }
            }
            proof {
                assert forall|v: int| 1 <= v < round implies #[trigger] level_used(finished@, fps@, v) by {
                    assert(level_used(fin_before, fps_before, v));
                }
                assert forall|k: int| idx < k < grams.len() implies alive@[k] == alive_before[k] && owners@[k]
                    == owners_before[k] by {
                }
                if round == 1 {
                    assert forall|l: int| 0 <= l < n && !finished@[l] implies (#[trigger] fps@[l]).ngrams.len()
                        >= count_sole(owners1, l, idx + 1) by {
                        assert(!fin_before[l]);
                        assert(count_sole(owners1, l, idx + 1) == count_sole(owners1, l, idx as int)
                            + if owners1[idx as int]@ == seq![l as usize] { 1nat } else { 0nat });
                        if owners1[idx as int]@ == seq![l as usize] {
                            assert(owners@[idx as int]@.len() == 1);
                            assert(fps@[l].ngrams.len() == fps_before[l].ngrams.len() + 1);
                        } else {
                            assert(fps@[l] == fps_before[l]);
                        }
                    }
                }
            }
            idx = idx + 1;
        }
        proof {
            if none_disc {
                assert forall|l: int| 0 <= l < n implies !#[trigger] finished@[l] by {
                    if finished@[l] {
                        lemma_sole_discriminable(cs@, grams@, owners1, l);
                    }
                }
                lemma_num_true_none(finished@);
            }
            if all_disc {
                assert forall|l: int| 0 <= l < n implies #[trigger] finished@[l] by {
                    assert(count_sole(owners1, l, grams.len() as int) >= 3);
                    assert(finished@[l] || fps@[l].ngrams.len() <= 2);
                    assert(finished@[l] || fps@[l].ngrams.len() >= count_sole(owners1, l, idx as int));
                }
                lemma_num_true_bounds(finished@);
            }
        }
        if n_fin == before {
            proof {
                lemma_num_true_bounds(finished@);
            }
            let rem = unfinished_names(cs, &finished);
            proof {
                let i = choose|i: int| 0 <= i < finished@.len() && !finished@[i];
                assert(listed(rem@, cs@[i].file@));
                assert forall|a: int, b: int|
                    0 <= a < cs.len() && 0 <= b < cs.len() && a != b && #[trigger] indistinct(cs@[a], cs@[b])
                        implies listed(rem@, cs@[a].file@) by {
                    assert(!finished@[a]);
                }
            }
            return Err(rem);
        }
        proof {
            if n_fin > before {
                lemma_num_true_diff(finished@, fin_start);
                let i = choose|i: int| 0 <= i < finished@.len() && #[trigger] finished@[i] && !fin_start[i];
                assert(level_used(finished@, fps@, round as int));
            }
        }
        if n_fin == n {
            proof {
                lemma_num_true_bounds(finished@);
                lemma_all_finished(cs@, finished@, fps@, round as int);
                assert forall|l: int, v: int|
                    #![trigger fps@[l], level_taken(fps@, v)]
                    0 <= l < fps.len() && 1 <= v <= fps@[l].level implies level_taken(fps@, v) by {
                    assert(level_used(finished@, fps@, v));
                }
                if cs.len() > 0 {
                    lemma_sound_needs_discriminable(cs@, fps@);
                }
            }
            return Ok(fps);
        }
        round = round + 1;
    }
}

} // verus!
