use vstd::prelude::*;

verus! {

/// Compares two string slices character by character.
pub fn str_eq(a: &str, b: &str) -> (r: bool)
    ensures
        r == (a@ == b@),
{
    let alen = a.unicode_len();
    let blen = b.unicode_len();
    if alen != blen {
        return false;
    }
    let mut i: usize = 0;
    while i < alen
        invariant
            alen == a@.len(),
            blen == b@.len(),
            alen == blen,
            i <= alen,
            forall|j: int| 0 <= j < i ==> a@[j] == b@[j],
        decreases alen - i,
    {
        if a.get_char(i) != b.get_char(i) {
            return false;
        }
        i += 1;
    }
    proof {
        assert(a@ =~= b@);
    }
    true
}

/// A finite set of identifier strings, backed by a vector.
pub struct IdSet {
    ids: Vec<String>,
}

impl View for IdSet {
    type V = Set<Seq<char>>;

    closed spec fn view(&self) -> Set<Seq<char>> {
        self.ids.deep_view().to_set()
    }
}

impl IdSet {
    /// Creates an empty set.
    pub fn new() -> (r: IdSet)
        ensures
            r@ =~= Set::<Seq<char>>::empty(),
    {
        let r = IdSet { ids: Vec::new() };
        proof {
            assert forall|v: Seq<char>| !r@.contains(v) by {
                assert(!r.ids.deep_view().contains(v));
            }
        }
        r
    }

    /// Whether the set holds the given identifier.
    pub fn contains(&self, v: &str) -> (r: bool)
        ensures
            r == self@.contains(v@),
    {
        let n = self.ids.len();
        let mut i: usize = 0;
        while i < n
            invariant
                n == self.ids@.len(),
                i <= n,
                forall|j: int| 0 <= j < i ==> self.ids.deep_view()[j] != v@,
            decreases n - i,
        {
            if str_eq(self.ids[i].as_str(), v) {
                proof {
                    assert(self.ids.deep_view()[i as int] == v@);
                    assert(self.ids.deep_view().contains(v@));
                }
                return true;
            }
            i += 1;
        }
        proof {
            if self.ids.deep_view().contains(v@) {
                let k = choose|k: int|
                    0 <= k < self.ids.deep_view().len() && self.ids.deep_view()[k] == v@;
                assert(self.ids.deep_view()[k] != v@);
            }
        }
        false
    }

    /// Inserts the given identifier.
    pub fn insert(&mut self, v: &str)
        ensures
            final(self)@ =~= old(self)@.insert(v@),
    {
        if self.contains(v) {
            proof {
                assert(self@ =~= self@.insert(v@));
            }
            return;
        }
        let s = v.to_owned();
        self.ids.push(s);
        proof {
            let odv = old(self).ids.deep_view();
            let ndv = self.ids.deep_view();
            assert(ndv =~= odv.push(v@));
            assert forall|x: Seq<char>| ndv.to_set().contains(x) <==> odv.to_set().insert(
                v@,
            ).contains(x) by {
                if ndv.contains(x) {
                    let k = choose|k: int| 0 <= k < ndv.len() && ndv[k] == x;
                    if k < odv.len() {
                        assert(odv[k] == x);
                        assert(odv.contains(x));
                    } else {
                        assert(x == v@);
                    }
                }
                if odv.contains(x) {
                    let k = choose|k: int| 0 <= k < odv.len() && odv[k] == x;
                    assert(ndv[k] == x);
                    assert(ndv.contains(x));
                }
                if x == v@ {
                    assert(ndv[odv.len() as int] == x);
                    assert(ndv.contains(x));
                }
            }
        }
    }
}

} // verus!
