use vstd::prelude::*;

use crate::discriminator::{Fingerprint, LicenseCorpus};
use crate::matcher::InputCorpus;
use crate::ngram::{grams_view, strings_view, NGram};

verus! {

/// The width of the n-grams of this system.
pub const NGRAM_SIZE: usize = 7;

/// One license of a stored fingerprint table: its id, its level and its
/// n-grams as arrays of tokens.
pub struct StoredEntry {
    pub name: String,
    pub level: u64,
    pub ngrams: Vec<Vec<String>>,
}

/// The views of token arrays.
pub open spec fn token_arrays_view(v: Seq<Vec<String>>) -> Seq<Seq<Seq<char>>> {
    v.map_values(|x: Vec<String>| strings_view(x@))
}

/// What `std::path::Path::file_stem` gives for a path, as text.
pub uninterp spec fn path_stem(path: Seq<char>) -> Option<Seq<char>>;

/// Relies on `std::path::Path::file_stem` (the file name without its
/// extension, `None` where the path has no file name) and `OsStr::to_str`
/// (which succeeds on the text of a `&str`); the result depends on the path alone.
#[verifier::external_body]
pub(crate) fn file_stem(path: &str) -> (r: Option<String>)
    ensures
        match r {
            Some(s) => path_stem(path@) == Some(s@),
            None => path_stem(path@) is None,
        },
{
    std::path::Path::new(path).file_stem().and_then(|s| s.to_str()).map(|s| s.to_string())
}

/// Whether `e` stores the license named `name` at `level` with these n-grams.
pub open spec fn stores(e: StoredEntry, name: Seq<char>, level: u64, grams: Seq<Seq<Seq<char>>>) -> bool {
    e.name@ == name && e.level == level && token_arrays_view(e.ngrams@) == grams
}

/// Whether no two stored entries have the same name.
pub open spec fn names_distinct(v: Seq<StoredEntry>) -> bool {
    forall|i: int, j: int| 0 <= i < v.len() && 0 <= j < v.len() && i != j ==> (#[trigger] v[i]).name@ != (#[trigger] v[j]).name@
}

/// Whether every corpus file has a stem and no two share one: the ids of the
/// licenses are then these stems, one per license.
pub open spec fn stems_unique(cs: Seq<LicenseCorpus>) -> bool {
    &&& forall|i: int| 0 <= i < cs.len() ==> path_stem((#[trigger] cs[i]).file@) is Some
    &&& forall|i: int, j: int|
        0 <= i < cs.len() && 0 <= j < cs.len() && i != j ==> path_stem((#[trigger] cs[i]).file@)->0 != path_stem((#[trigger] cs[j]).file@)->0
}

/// The table in its stored form: one entry per corpus, named by the stem of
/// the corpus's file name; `None` where a file name has no stem or two
/// files have the same stem (a license id must be unique).
pub fn save_data(cs: &Vec<LicenseCorpus>, t: &Vec<Fingerprint>) -> (r: Option<Vec<StoredEntry>>)
    requires
        t.len() == cs.len(),
    ensures
        r is Some <==> stems_unique(cs@),
        r matches Some(v) ==> names_distinct(v@),
        r matches Some(v) ==> v.len() == cs.len() && forall|i: int|
            0 <= i < cs.len() ==> stores(
                #[trigger] v@[i],
                path_stem(cs@[i].file@)->0,
                t@[i].level,
                grams_view(t@[i].ngrams@),
            ),
{
    let mut out: Vec<StoredEntry> = Vec::new();
    let mut i: usize = 0;
    while i < cs.len()
        invariant
            t.len() == cs.len(),
            i <= cs.len(),
            out.len() == i,
            forall|j: int| 0 <= j < i ==> path_stem((#[trigger] cs@[j]).file@) is Some,
            forall|a: int, b: int|
                0 <= a < i && 0 <= b < i && a != b ==> path_stem((#[trigger] cs@[a]).file@)->0 != path_stem((#[trigger] cs@[b]).file@)->0,
            forall|j: int|
                0 <= j < i ==> stores(
                    #[trigger] out@[j],
                    path_stem(cs@[j].file@)->0,
                    t@[j].level,
                    grams_view(t@[j].ngrams@),
                ),
        decreases cs.len() - i,
    {
        let name = match file_stem(cs[i].file.as_str()) {
            Some(s) => s,
            None => return None,
        };
        assert forall|j: int| 0 <= j < i implies (#[trigger] out@[j]).name@ == path_stem(cs@[j].file@)->0 by {
            assert(stores(out@[j], path_stem(cs@[j].file@)->0, t@[j].level, grams_view(t@[j].ngrams@)));
        }
        let mut q: usize = 0;
        while q < i
            invariant
                q <= i,
                i < cs.len(),
                out.len() == i,
                path_stem(cs@[i as int].file@) == Some(name@),
                forall|j: int| 0 <= j < q ==> (#[trigger] out@[j]).name@ != name@,
                forall|j: int| 0 <= j < i ==> path_stem((#[trigger] cs@[j]).file@) is Some,
                forall|j: int| 0 <= j < i ==> (#[trigger] out@[j]).name@ == path_stem(cs@[j].file@)->0,
            decreases i - q,
        {
            if out[q].name == name {
                assert(out@[q as int].name@ == path_stem(cs@[q as int].file@)->0);
                assert(path_stem(cs@[q as int].file@)->0 == path_stem(cs@[i as int].file@)->0);
                assert(!stems_unique(cs@));
                return None;
            }
            q = q + 1;
        }
        assert forall|j: int| 0 <= j < i implies path_stem((#[trigger] cs@[j]).file@)->0 != name@ by {
            assert(stores(out@[j], path_stem(cs@[j].file@)->0, t@[j].level, grams_view(t@[j].ngrams@)));
        }
        let fp = &t[i];
        let mut arrays: Vec<Vec<String>> = Vec::new();
        let mut k: usize = 0;
        while k < fp.ngrams.len()
            invariant
                k <= fp.ngrams.len(),
                arrays.len() == k,
                forall|m: int| 0 <= m < k ==> strings_view((#[trigger] arrays@[m])@) == fp.ngrams@[m]@,
            decreases fp.ngrams.len() - k,
        {
            let g = NGram::new(fp.ngrams[k].elements.obj.as_slice());
            arrays.push(g.elements.obj);
            k = k + 1;
        }
        assert(token_arrays_view(arrays@) =~= grams_view(fp.ngrams@));
        out.push(StoredEntry { name, level: fp.level, ngrams: arrays });
        i = i + 1;
    }
    assert forall|a: int, b: int| 0 <= a < out.len() && 0 <= b < out.len() && a != b implies (#[trigger] out@[a]).name@
        != (#[trigger] out@[b]).name@ by {
        assert(stores(out@[a], path_stem(cs@[a].file@)->0, t@[a].level, grams_view(t@[a].ngrams@)));
        assert(stores(out@[b], path_stem(cs@[b].file@)->0, t@[b].level, grams_view(t@[b].ngrams@)));
    }
    Some(out)
}

/// Whether every token array of `e` has the width of this system's n-grams.
pub open spec fn well_formed(e: StoredEntry) -> bool {
    forall|k: int| 0 <= k < e.ngrams@.len() ==> (#[trigger] e.ngrams@[k]).len() == NGRAM_SIZE
}

/// Whether `c` is the loaded form of `e`.
pub open spec fn loaded_from(c: InputCorpus, e: StoredEntry) -> bool {
    &&& c.file@ == e.name@
    &&& c.level == e.level
    &&& grams_view(c.ngrams@) == token_arrays_view(e.ngrams@)
    &&& c.ngrams@.len() == e.ngrams@.len()
    &&& forall|k: int| 0 <= k < c.ngrams@.len() ==> (#[trigger] c.ngrams@[k]).size == e.ngrams@[k].len()
}

/// Whether `c` is the loaded form of some entry of `input`.
pub open spec fn from_some(c: InputCorpus, input: Seq<StoredEntry>) -> bool {
    exists|i: int| 0 <= i < input.len() && loaded_from(c, #[trigger] input[i])
}

/// Whether the loaded form of `e` stands in `v`.
pub open spec fn loaded_in(v: Seq<InputCorpus>, e: StoredEntry) -> bool {
    exists|p: int| 0 <= p < v.len() && loaded_from(#[trigger] v[p], e)
}

fn load_entry(e: &StoredEntry) -> (r: InputCorpus)
    ensures
        loaded_from(r, *e),
{
    let mut grams: Vec<NGram> = Vec::new();
    let mut k: usize = 0;
    while k < e.ngrams.len()
        invariant
            k <= e.ngrams.len(),
            grams.len() == k,
            forall|m: int| 0 <= m < k ==> (#[trigger] grams@[m])@ == strings_view(e.ngrams@[m]@),
            forall|m: int| 0 <= m < k ==> (#[trigger] grams@[m]).size == e.ngrams@[m].len(),
        decreases e.ngrams.len() - k,
    {
        grams.push(NGram::new(e.ngrams[k].as_slice()));
        k = k + 1;
    }
    assert(grams_view(grams@) =~= token_arrays_view(e.ngrams@));
    InputCorpus { file: e.name.clone(), level: e.level, ngrams: grams }
}

/// The positions of `input`, ordered by level; equal levels keep their order.
fn order_by_level(input: &Vec<StoredEntry>) -> (r: Vec<usize>)
    ensures
        r.len() == input.len(),
        forall|p: int| 0 <= p < r.len() ==> (#[trigger] r@[p]) < input.len(),
        forall|x: usize| x < input.len() ==> #[trigger] r@.contains(x),
        forall|a: int, b: int|
            0 <= a < b < r.len() ==> input@[#[trigger] r@[a] as int].level <= input@[#[trigger] r@[b] as int].level,
{
    let mut order: Vec<usize> = Vec::new();
    let mut i: usize = 0;
    while i < input.len()
        invariant
            i <= input.len(),
            order.len() == i,
            forall|p: int| 0 <= p < order.len() ==> (#[trigger] order@[p]) < i,
            forall|x: usize| x < i ==> #[trigger] order@.contains(x),
            forall|a: int, b: int|
                0 <= a < b < order.len() ==> input@[#[trigger] order@[a] as int].level
                    <= input@[#[trigger] order@[b] as int].level,
        decreases input.len() - i,
    {
        let lv = input[i].level;
        let mut pos: usize = 0;
        while pos < order.len() && input[order[pos]].level <= lv
            invariant
                pos <= order.len(),
                forall|p: int| 0 <= p < order.len() ==> (#[trigger] order@[p]) < i,
                i < input.len(),
                lv == input@[i as int].level,
                forall|a: int| 0 <= a < pos ==> input@[#[trigger] order@[a] as int].level <= lv,
            decreases order.len() - pos,
        {
            pos = pos + 1;
        }
        let ghost o0 = order@;
        proof {
            o0.insert_ensures(pos as int, i);
        }
        order.insert(pos, i);
        assert forall|a: int, b: int|
            0 <= a < b < order.len() implies input@[#[trigger] order@[a] as int].level
                <= input@[#[trigger] order@[b] as int].level by {
            if b < pos {
            } else if b == pos {
                assert(order@[a] == o0[a]);
            } else if a < pos {
                assert(order@[b] == o0[b - 1]);
                assert(input@[o0[pos as int] as int].level > lv);
                if pos < b - 1 {
                    assert(input@[o0[pos as int] as int].level <= input@[o0[b - 1] as int].level);
                }
            } else if a == pos {
                assert(order@[b] == o0[b - 1]);
                assert(input@[o0[pos as int] as int].level > lv);
                if pos < b - 1 {
                    assert(input@[o0[pos as int] as int].level <= input@[o0[b - 1] as int].level);
                }
            } else {
                assert(order@[a] == o0[a - 1]);
                assert(order@[b] == o0[b - 1]);
            }
        }
        assert forall|x: usize| x < i + 1 implies #[trigger] order@.contains(x) by {
            if x == i {
                assert(order@[pos as int] == i);
            } else {
                assert(o0.contains(x));
                let w = choose|w: int| 0 <= w < o0.len() && o0[w] == x;
                if w < pos {
                    assert(order@[w] == x);
                } else {
                    assert(order@[w + 1] == x);
                }
            }
        }
        assert forall|p: int| 0 <= p < order.len() implies (#[trigger] order@[p]) < i + 1 by {
            if p < pos {
                assert(order@[p] == o0[p]);
            } else if p > pos {
                assert(order@[p] == o0[p - 1]);
            }
        }
        i = i + 1;
    }
    order
}

/// Whether the name of entry `i` is used by another entry too.
pub open spec fn name_repeated(v: Seq<StoredEntry>, i: int) -> bool {
    exists|j: int| 0 <= j < v.len() && j != i && (#[trigger] v[j]).name@ == v[i].name@
}

/// Loads a stored table, ordered by level (equal levels keep their order).
/// Fails with the name of an entry that holds a token array whose width is
/// not the n-gram width, or whose name another entry has too.
pub fn load_data(input: &Vec<StoredEntry>) -> (r: Result<Vec<InputCorpus>, String>)
    ensures
        r is Ok <==> (forall|i: int| 0 <= i < input.len() ==> well_formed(#[trigger] input@[i]))
            && names_distinct(input@),
        r matches Err(name) ==> exists|i: int|
            0 <= i < input.len() && (!well_formed(#[trigger] input@[i]) || name_repeated(input@, i))
                && input@[i].name@ == name@,
        r matches Ok(v) ==> {
            &&& v.len() == input.len()
            &&& forall|a: int, b: int| 0 <= a < b < v.len() ==> (#[trigger] v@[a]).level <= (#[trigger] v@[b]).level
            &&& forall|p: int| 0 <= p < v.len() ==> from_some(#[trigger] v@[p], input@)
            &&& forall|i: int| 0 <= i < input.len() ==> loaded_in(v@, #[trigger] input@[i])
        },
{
    let mut i: usize = 0;
    while i < input.len()
        invariant
            i <= input.len(),
            forall|j: int| 0 <= j < i ==> well_formed(#[trigger] input@[j]),
        decreases input.len() - i,
    {
        let e = &input[i];
        let mut k: usize = 0;
        while k < e.ngrams.len()
            invariant
                i < input.len(),
                *e == input@[i as int],
                k <= e.ngrams.len(),
                forall|m: int| 0 <= m < k ==> (#[trigger] e.ngrams@[m]).len() == NGRAM_SIZE,
            decreases e.ngrams.len() - k,
        {
            if e.ngrams[k].len() != NGRAM_SIZE {
                assert(!well_formed(input@[i as int]));
                return Err(e.name.clone());
            }
            k = k + 1;
        }
        i = i + 1;
    }
    let mut a: usize = 0;
    while a < input.len()
        invariant
            a <= input.len(),
            forall|x: int, y: int| 0 <= x < a && 0 <= y < input.len() && x != y ==> (#[trigger] input@[x]).name@ != (#[trigger] input@[y]).name@,
        decreases input.len() - a,
    {
        let mut b: usize = 0;
        while b < input.len()
            invariant
                a < input.len(),
                b <= input.len(),
                forall|y: int| 0 <= y < b && y != a ==> (#[trigger] input@[y]).name@ != input@[a as int].name@,
            decreases input.len() - b,
        {
            if b != a && input[b].name == input[a].name {
                assert(name_repeated(input@, a as int));
                return Err(input[a].name.clone());
            }
            b = b + 1;
        }
        a = a + 1;
    }
    let order = order_by_level(input);
    let mut out: Vec<InputCorpus> = Vec::new();
    let mut p: usize = 0;
    while p < order.len()
        invariant
            order.len() == input.len(),
            forall|q: int| 0 <= q < order.len() ==> (#[trigger] order@[q]) < input.len(),
            p <= order.len(),
            out.len() == p,
            forall|q: int| 0 <= q < p ==> loaded_from(#[trigger] out@[q], input@[order@[q] as int]),
        decreases order.len() - p,
    {
        out.push(load_entry(&input[order[p]]));
        p = p + 1;
    }
    assert forall|a: int, b: int| 0 <= a < b < out.len() implies (#[trigger] out@[a]).level <= (#[trigger] out@[b]).level by {
        assert(input@[order@[a] as int].level <= input@[order@[b] as int].level);
    }
    assert forall|q: int| 0 <= q < out.len() implies from_some(#[trigger] out@[q], input@) by {
        assert(loaded_from(out@[q], input@[order@[q] as int]));
    }
    assert forall|j: int| 0 <= j < input.len() implies loaded_in(out@, #[trigger] input@[j]) by {
        assert(order@.contains(j as usize));
        let q = choose|q: int| 0 <= q < order.len() && order@[q] == j as usize;
        assert(loaded_from(out@[q], input@[j]));
    }
    assert(out.len() == input.len());
    Ok(out)
}

} // verus!
