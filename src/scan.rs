use vstd::prelude::*;

use crate::ngram::strings_view;
use crate::ssdeep::CompareResult;

verus! {

/// A scanned file and the licenses found in it.
pub struct ScanEntry {
    pub file: String,
    pub licenses: Vec<String>,
}

/// The licenses found per file: each file once, each license once per file.
pub struct ScanResults {
    pub entries: Vec<ScanEntry>,
}

/// Whether `l` is recorded for the file `f`.
pub open spec fn lists(es: Seq<ScanEntry>, f: Seq<char>, l: Seq<char>) -> bool {
    exists|e: int| 0 <= e < es.len() && (#[trigger] es[e]).file@ == f && strings_view(es[e].licenses@).contains(l)
}

/// Whether the file `f` has an entry.
pub open spec fn has_file(es: Seq<ScanEntry>, f: Seq<char>) -> bool {
    exists|e: int| 0 <= e < es.len() && (#[trigger] es[e]).file@ == f
}

/// Whether one of the first `n` hits pairs the file `f` with the license `l`.
pub open spec fn hit_pair(hits: Seq<CompareResult>, n: int, f: Seq<char>, l: Seq<char>) -> bool {
    exists|k: int| 0 <= k < n && k < hits.len() && (#[trigger] hits[k]).file_a@ == f && hits[k].file_b@ == l
}

fn position_of(v: &Vec<String>, s: &String) -> (r: Option<usize>)
    ensures
        match r {
            Some(k) => k < v.len() && v@[k as int]@ == s@,
            None => forall|k: int| 0 <= k < v.len() ==> (#[trigger] v@[k])@ != s@,
        },
{
    let mut k: usize = 0;
    while k < v.len()
        invariant
            k <= v.len(),
            forall|j: int| 0 <= j < k ==> (#[trigger] v@[j])@ != s@,
        decreases v.len() - k,
    {
        if v[k] == *s {
            return Some(k);
        }
        k = k + 1;
    }
    None
}

fn find_file(es: &Vec<ScanEntry>, file: &String) -> (r: Option<usize>)
    ensures
        match r {
            Some(e) => e < es.len() && es@[e as int].file@ == file@,
            None => forall|j: int| 0 <= j < es.len() ==> (#[trigger] es@[j]).file@ != file@,
        },
{
    let mut e: usize = 0;
    while e < es.len()
        invariant
            e <= es.len(),
            forall|j: int| 0 <= j < e ==> (#[trigger] es@[j]).file@ != file@,
        decreases es.len() - e,
    {
        if es[e].file == *file {
            return Some(e);
        }
        e = e + 1;
    }
    None
}

impl ScanResults {
    /// Files are distinct, and so are the licenses of each file.
    pub open spec fn wf(&self) -> bool {
        &&& forall|a: int, b: int|
            0 <= a < b < self.entries@.len() ==> (#[trigger] self.entries@[a]).file@ != (#[trigger] self.entries@[b]).file@
        &&& forall|e: int, a: int, b: int|
            0 <= e < self.entries@.len() && 0 <= a < b < self.entries@[e].licenses@.len()
                ==> (#[trigger] self.entries@[e].licenses@[a])@ != (#[trigger] self.entries@[e].licenses@[b])@
    }

    pub fn new() -> (r: ScanResults)
        ensures
            r.wf(),
            r.entries@.len() == 0,
    {
        ScanResults { entries: Vec::new() }
    }

    /// Records `license` for `file`; a license already recorded for that file
    /// is not recorded twice.
    pub fn insert_one(&mut self, file: String, license: String)
        requires
            old(self).wf(),
        ensures
            final(self).wf(),
            forall|f: Seq<char>, l: Seq<char>|
                #[trigger] lists(final(self).entries@, f, l) <==> lists(old(self).entries@, f, l) || (f
                    == file@ && l == license@),
            forall|f: Seq<char>|
                #[trigger] has_file(final(self).entries@, f) <==> has_file(old(self).entries@, f) || f
                    == file@,
    {
        let ghost es0 = self.entries@;
        let found = find_file(&self.entries, &file);
        if found.is_none() {
            let mut ls: Vec<String> = Vec::new();
            ls.push(license);
            self.entries.push(ScanEntry { file, licenses: ls });
            let ghost es = self.entries@;
            assert(es[es.len() - 1].file@ == file@);
            assert(strings_view(es[es.len() - 1].licenses@)[0] == license@);
            assert forall|f: Seq<char>, l: Seq<char>|
                #[trigger] lists(es, f, l) <==> lists(es0, f, l) || (f == file@ && l == license@) by {
                if lists(es, f, l) {
                    let w = choose|w: int| 0 <= w < es.len() && (#[trigger] es[w]).file@ == f
                        && strings_view(es[w].licenses@).contains(l);
                    if w < es0.len() {
                        assert(es0[w] == es[w]);
                    } else {
                        let q = choose|q: int| 0 <= q < strings_view(es[w].licenses@).len() && strings_view(es[w].licenses@)[q] == l;
                        assert(q == 0);
                    }
                }
                if lists(es0, f, l) {
                    let w = choose|w: int| 0 <= w < es0.len() && (#[trigger] es0[w]).file@ == f
                        && strings_view(es0[w].licenses@).contains(l);
                    assert(es[w] == es0[w]);
                }
                if f == file@ && l == license@ {
                    assert(strings_view(es[es.len() - 1].licenses@).contains(l));
                }
            }
            assert forall|f: Seq<char>| #[trigger] has_file(es, f) <==> has_file(es0, f) || f == file@ by {
                if has_file(es, f) {
                    let w = choose|w: int| 0 <= w < es.len() && (#[trigger] es[w]).file@ == f;
                    if w < es0.len() {
                        assert(es0[w] == es[w]);
                    }
                }
                if has_file(es0, f) {
                    let w = choose|w: int| 0 <= w < es0.len() && (#[trigger] es0[w]).file@ == f;
                    assert(es[w] == es0[w]);
                }
            }
        } else {
            let e = found.unwrap();
            match position_of(&self.entries[e].licenses, &license) {
                Some(k) => {
                    assert(strings_view(es0[e as int].licenses@)[k as int] == license@);
                    assert forall|f: Seq<char>, l: Seq<char>|
                        #[trigger] lists(es0, f, l) <==> lists(es0, f, l) || (f == file@ && l == license@) by {
                        if f == file@ && l == license@ {
                            assert(strings_view(es0[e as int].licenses@).contains(l));
                        }
                    }
                    assert forall|f: Seq<char>| #[trigger] has_file(es0, f) <==> has_file(es0, f) || f == file@ by {
                        if f == file@ {
                            assert(es0[e as int].file@ == f);
                        }
                    }
                },
                None => {
                    let mut entry = ScanEntry { file: String::new(), licenses: Vec::new() };
                    std::mem::swap(&mut entry, &mut self.entries[e]);
                    assert(entry == es0[e as int]);
                    entry.licenses.push(license);
                    self.entries.set(e, entry);
                    let ghost es = self.entries@;
                    let ghost ls0 = es0[e as int].licenses@;
                    let ghost ls1 = es[e as int].licenses@;
                    assert(ls1.len() == ls0.len() + 1);
                    assert(forall|k: int| 0 <= k < ls0.len() ==> ls1[k] == ls0[k]);
                    assert(strings_view(ls1)[ls0.len() as int] == license@);
                    assert forall|ee: int, a: int, b: int|
                        0 <= ee < es.len() && 0 <= a < b < es[ee].licenses@.len()
                            implies (#[trigger] es[ee].licenses@[a])@ != (#[trigger] es[ee].licenses@[b])@ by {
                        if ee != e {
                            assert(es[ee] == es0[ee]);
                        } else if b == ls0.len() {
                            assert(ls0[a]@ != license@);
                        } else {
                            assert(ls1[a] == ls0[a] && ls1[b] == ls0[b]);
                        }
                    }
                    assert forall|a: int, b: int|
                        0 <= a < b < es.len() implies (#[trigger] es[a]).file@ != (#[trigger] es[b]).file@ by {
                        assert(es[a].file == es0[a].file && es[b].file == es0[b].file);
                    }
                    assert forall|f: Seq<char>, l: Seq<char>|
                        #[trigger] lists(es, f, l) <==> lists(es0, f, l) || (f == file@ && l == license@) by {
                        if lists(es, f, l) {
                            let w = choose|w: int| 0 <= w < es.len() && (#[trigger] es[w]).file@ == f
                                && strings_view(es[w].licenses@).contains(l);
                            if w != e {
                                assert(es0[w] == es[w]);
                            } else {
                                let q = choose|q: int| 0 <= q < strings_view(ls1).len() && strings_view(ls1)[q] == l;
                                if q < ls0.len() {
                                    assert(strings_view(ls0)[q] == l);
                                }
                            }
                        }
                        if lists(es0, f, l) {
                            let w = choose|w: int| 0 <= w < es0.len() && (#[trigger] es0[w]).file@ == f
                                && strings_view(es0[w].licenses@).contains(l);
                            if w != e {
                                assert(es[w] == es0[w]);
                            } else {
                                let q = choose|q: int| 0 <= q < strings_view(ls0).len() && strings_view(ls0)[q] == l;
                                assert(strings_view(ls1)[q] == l);
                            }
                        }
                        if f == file@ && l == license@ {
                            assert(strings_view(ls1)[ls0.len() as int] == l);
                        }
                    }
                    assert forall|f: Seq<char>| #[trigger] has_file(es, f) <==> has_file(es0, f) || f == file@ by {
                        if has_file(es, f) {
                            let w = choose|w: int| 0 <= w < es.len() && (#[trigger] es[w]).file@ == f;
                            assert(es0[w].file == es[w].file);
                        }
                        if has_file(es0, f) {
                            let w = choose|w: int| 0 <= w < es0.len() && (#[trigger] es0[w]).file@ == f;
                            assert(es[w].file == es0[w].file);
                        }
                        if f == file@ {
                            assert(es[e as int].file@ == f);
                        }
                    }
                },
            }
        }
    }

    /// Records the license of every fuzzy-hash hit for its file.
    pub fn add_hits(&mut self, hits: &Vec<CompareResult>)
        requires
            old(self).wf(),
        ensures
            final(self).wf(),
            forall|f: Seq<char>, l: Seq<char>|
                #[trigger] lists(final(self).entries@, f, l) <==> lists(old(self).entries@, f, l) || hit_pair(
                    hits@,
                    hits.len() as int,
                    f,
                    l,
                ),
    {
        let ghost es0 = self.entries@;
        let mut i: usize = 0;
        while i < hits.len()
            invariant
                i <= hits.len(),
                self.wf(),
                forall|f: Seq<char>, l: Seq<char>|
                    #[trigger] lists(self.entries@, f, l) <==> lists(es0, f, l) || hit_pair(hits@, i as int, f, l),
            decreases hits.len() - i,
        {
            let ghost es1 = self.entries@;
            let h = &hits[i];
            self.insert_one(h.file_a.clone(), h.file_b.clone());
            assert forall|f: Seq<char>, l: Seq<char>|
                #[trigger] lists(self.entries@, f, l) <==> lists(es0, f, l) || hit_pair(hits@, i + 1, f, l) by {
                assert(lists(self.entries@, f, l) <==> lists(es1, f, l) || (f == h.file_a@ && l == h.file_b@));
                assert(lists(es1, f, l) <==> lists(es0, f, l) || hit_pair(hits@, i as int, f, l));
                if hit_pair(hits@, i + 1, f, l) && !hit_pair(hits@, i as int, f, l) {
                    let k = choose|k: int| 0 <= k < i + 1 && k < hits@.len() && (#[trigger] hits@[k]).file_a@ == f && hits@[k].file_b@ == l;
                    assert(k == i);
                }
                if f == h.file_a@ && l == h.file_b@ {
                    assert(hits@[i as int] == *h);
                    assert(hit_pair(hits@, i + 1, f, l));
                }
                if hit_pair(hits@, i as int, f, l) {
                    let k = choose|k: int| 0 <= k < i && k < hits@.len() && (#[trigger] hits@[k]).file_a@ == f && hits@[k].file_b@ == l;
                    assert(hit_pair(hits@, i + 1, f, l));
                }
            }
            i = i + 1;
        }
    }
}

} // verus!
