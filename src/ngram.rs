use vstd::prelude::*;

verus! {

/// The views of a sequence of strings.
pub open spec fn strings_view(v: Seq<String>) -> Seq<Seq<char>> {
    v.map_values(|s: String| s@)
}

/// A vector of tokens whose equality is the equality of its elements in order.
#[derive(Debug, Clone, PartialEq, Eq, Hash)]
pub struct HashableVec {
    pub obj: Vec<String>,
}

impl HashableVec {
    pub fn new(obj: Vec<String>) -> (r: HashableVec)
        ensures
            r.obj@ == obj@,
    {
        HashableVec { obj }
    }
}

/// An ordered tuple of tokens.
#[derive(Debug, Clone, PartialEq, Eq, Hash)]
pub struct NGram {
    pub size: usize,
    pub elements: HashableVec,
}

impl View for NGram {
    type V = Seq<Seq<char>>;

    open spec fn view(&self) -> Seq<Seq<char>> {
        strings_view(self.elements.obj@)
    }
}

/// The views of a sequence of n-grams.
pub open spec fn grams_view(v: Seq<NGram>) -> Seq<Seq<Seq<char>>> {
    v.map_values(|g: NGram| g@)
}

/// The ordered sequence of contiguous `n`-token windows of `t`.
pub open spec fn windows(t: Seq<Seq<char>>, n: nat) -> Seq<Seq<Seq<char>>> {
    Seq::new(
        if t.len() >= n { (t.len() - n + 1) as nat } else { 0 },
        |k: int| t.subrange(k, k + n),
    )
}

impl NGram {
    pub fn new(items: &[String]) -> (r: NGram)
        ensures
            r@ == strings_view(items@),
            r.size == items.len(),
    {
        let mut obj: Vec<String> = Vec::new();
        let mut i: usize = 0;
        while i < items.len()
            invariant
                i <= items.len(),
                obj.len() == i,
                forall|k: int| 0 <= k < i ==> (#[trigger] obj@[k])@ == items@[k]@,
            decreases items.len() - i,
        {
            obj.push(items[i].clone());
            i = i + 1;
        }
        assert(strings_view(obj@) =~= strings_view(items@));
        NGram { size: items.len(), elements: HashableVec::new(obj) }
    }

    /// A copy of this n-gram with the same tokens.
    pub fn duplicate(&self) -> (r: NGram)
        ensures
            r@ == self@,
            r.size == self.size,
    {
        let g = NGram::new(self.elements.obj.as_slice());
        NGram { size: self.size, elements: g.elements }
    }

    /// Whether both n-grams hold the same tokens in the same positions.
    pub fn same_tokens(&self, other: &NGram) -> (r: bool)
        ensures
            r == (self@ == other@),
    {
        let a = &self.elements.obj;
        let b = &other.elements.obj;
        if a.len() != b.len() {
            assert(self@.len() != other@.len());
            return false;
        }
        assert(self@.len() == a@.len() && other@.len() == b@.len());
        let mut i: usize = 0;
        while i < a.len()
            invariant
                a.len() == b.len(),
                self@.len() == a@.len(),
                other@.len() == b@.len(),
                a == self.elements.obj,
                b == other.elements.obj,
                i <= a.len(),
                forall|k: int| 0 <= k < i ==> (#[trigger] a@[k])@ == b@[k]@,
            decreases a.len() - i,
        {
            if a[i] != b[i] {
                assert(self@[i as int] == a@[i as int]@);
                assert(other@[i as int] == b@[i as int]@);
                assert(self@[i as int] != other@[i as int]);
                return false;
            }
            i = i + 1;
        }
        assert(self@ =~= other@);
        true
    }
}

/// The n-grams of width `n` over the tokens `tokens`, in order.
pub fn ngrams_of(tokens: &Vec<String>, n: usize) -> (r: Vec<NGram>)
    requires
        n >= 1,
    ensures
        grams_view(r@) == windows(strings_view(tokens@), n as nat),
        forall|k: int| 0 <= k < r.len() ==> (#[trigger] r@[k]).size == n,
        tokens.len() < n ==> r.len() == 0,
        tokens.len() == n ==> r.len() == 1,
{
    let mut r: Vec<NGram> = Vec::new();
    if tokens.len() < n {
        assert(grams_view(r@) =~= windows(strings_view(tokens@), n as nat));
        return r;
    }
    let count: usize = tokens.len() - n + 1;
    let mut k: usize = 0;
    while k < count
        invariant
            count == tokens.len() - n + 1,
            n >= 1,
            k <= count,
            r.len() == k,
            forall|j: int| 0 <= j < k ==> (#[trigger] r@[j])@ == strings_view(tokens@).subrange(j, j + n),
            forall|j: int| 0 <= j < k ==> (#[trigger] r@[j]).size == n,
        decreases count - k,
    {
        let g = NGram::new(&tokens.as_slice()[k..k + n]);
        assert(strings_view(tokens@.subrange(k as int, k + n)) =~= strings_view(tokens@).subrange(k as int, k + n));
        r.push(g);
        k = k + 1;
    }
    assert(grams_view(r@) =~= windows(strings_view(tokens@), n as nat));
    r
}

} // verus!
