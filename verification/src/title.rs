//! A language-code to text mapping with unique keys.
//!
//! The output shape's `title` field is such a mapping: keys are inserted in
//! order, a repeated key overwrites the earlier value in place
//! (last-write-wins), and lookups find the value of the single entry that
//! holds the key.

use vstd::prelude::*;

verus! {

/// The entry pairs hold pairwise distinct keys.
pub open spec fn keys_unique(ps: Seq<(Seq<char>, Seq<char>)>) -> bool {
    forall|i: int, j: int| 0 <= i < j < ps.len() ==> (#[trigger] ps[i]).0 != (#[trigger] ps[j]).0
}

/// The value under key `k`, if an entry holds it.
pub open spec fn lookup(ps: Seq<(Seq<char>, Seq<char>)>, k: Seq<char>) -> Option<Seq<char>>
    decreases ps.len(),
{
    if ps.len() == 0 {
        None
    } else if ps[0].0 == k {
        Some(ps[0].1)
    } else {
        lookup(ps.drop_first(), k)
    }
}

/// The pairs after binding `k` to `v`: the entry that already holds `k` is
/// overwritten in place, and a fresh key is appended at the end.
pub open spec fn upsert(
    ps: Seq<(Seq<char>, Seq<char>)>,
    k: Seq<char>,
    v: Seq<char>,
) -> Seq<(Seq<char>, Seq<char>)>
    decreases ps.len(),
{
    if ps.len() == 0 {
        seq![(k, v)]
    } else if ps[0].0 == k {
        seq![(k, v)] + ps.drop_first()
    } else {
        seq![ps[0]] + upsert(ps.drop_first(), k, v)
    }
}

proof fn lemma_upsert_found(ps: Seq<(Seq<char>, Seq<char>)>, k: Seq<char>, v: Seq<char>, j: int)
    requires
        0 <= j < ps.len(),
        ps[j].0 == k,
        forall|m: int| 0 <= m < j ==> (#[trigger] ps[m]).0 != k,
    ensures
        upsert(ps, k, v) =~= ps.update(j, (k, v)),
    decreases ps.len(),
{
    if j == 0 {
    } else {
        assert(forall|m: int| 0 <= m < j - 1 ==> (#[trigger] ps.drop_first()[m]).0 != k);
        lemma_upsert_found(ps.drop_first(), k, v, j - 1);
    }
}

proof fn lemma_upsert_absent(ps: Seq<(Seq<char>, Seq<char>)>, k: Seq<char>, v: Seq<char>)
    requires
        forall|m: int| 0 <= m < ps.len() ==> (#[trigger] ps[m]).0 != k,
    ensures
        upsert(ps, k, v) =~= ps.push((k, v)),
    decreases ps.len(),
{
    if ps.len() == 0 {
    } else {
        assert(forall|m: int|
            0 <= m < ps.drop_first().len() ==> (#[trigger] ps.drop_first()[m]).0 != k);
        lemma_upsert_absent(ps.drop_first(), k, v);
    }
}

proof fn lemma_lookup_found(ps: Seq<(Seq<char>, Seq<char>)>, k: Seq<char>, j: int)
    requires
        0 <= j < ps.len(),
        ps[j].0 == k,
        forall|m: int| 0 <= m < j ==> (#[trigger] ps[m]).0 != k,
    ensures
        lookup(ps, k) == Some(ps[j].1),
    decreases ps.len(),
{
    if j == 0 {
    } else {
        assert(forall|m: int| 0 <= m < j - 1 ==> (#[trigger] ps.drop_first()[m]).0 != k);
        lemma_lookup_found(ps.drop_first(), k, j - 1);
    }
}

proof fn lemma_lookup_absent(ps: Seq<(Seq<char>, Seq<char>)>, k: Seq<char>)
    requires
        forall|m: int| 0 <= m < ps.len() ==> (#[trigger] ps[m]).0 != k,
    ensures
        lookup(ps, k) is None,
    decreases ps.len(),
{
    if ps.len() == 0 {
    } else {
        assert(forall|m: int|
            0 <= m < ps.drop_first().len() ==> (#[trigger] ps.drop_first()[m]).0 != k);
        lemma_lookup_absent(ps.drop_first(), k);
    }
}

/// Binding a key makes it the one found, whatever was bound before.
pub proof fn lemma_lookup_upsert_same(ps: Seq<(Seq<char>, Seq<char>)>, k: Seq<char>, v: Seq<char>)
    ensures
        lookup(upsert(ps, k, v), k) == Some(v),
    decreases ps.len(),
{
    if ps.len() == 0 {
    } else if ps[0].0 == k {
        assert((seq![(k, v)] + ps.drop_first())[0] == (k, v));
    } else {
        lemma_lookup_upsert_same(ps.drop_first(), k, v);
        assert((seq![ps[0]] + upsert(ps.drop_first(), k, v)).drop_first() =~= upsert(
            ps.drop_first(),
            k,
            v,
        ));
    }
}

/// Binding one key leaves every other key's value as it was.
pub proof fn lemma_lookup_upsert_other(
    ps: Seq<(Seq<char>, Seq<char>)>,
    k: Seq<char>,
    v: Seq<char>,
    k2: Seq<char>,
)
    requires
        k2 != k,
    ensures
        lookup(upsert(ps, k, v), k2) == lookup(ps, k2),
    decreases ps.len(),
{
    if ps.len() == 0 {
        assert(upsert(ps, k, v)[0] == (k, v));
        assert(upsert(ps, k, v).drop_first() =~= Seq::<(Seq<char>, Seq<char>)>::empty());
        assert(lookup(Seq::<(Seq<char>, Seq<char>)>::empty(), k2) is None);
    } else if ps[0].0 == k {
        assert((seq![(k, v)] + ps.drop_first())[0] == (k, v));
        assert((seq![(k, v)] + ps.drop_first()).drop_first() =~= ps.drop_first());
    } else {
        lemma_lookup_upsert_other(ps.drop_first(), k, v, k2);
        assert((seq![ps[0]] + upsert(ps.drop_first(), k, v))[0] == ps[0]);
        assert((seq![ps[0]] + upsert(ps.drop_first(), k, v)).drop_first() =~= upsert(
            ps.drop_first(),
            k,
            v,
        ));
    }
}

/// A language-code to text mapping that keeps its entries in first-insertion
/// order and holds each key at most once.
#[derive(Debug)]
pub struct TitleMap {
    pairs: Vec<(String, String)>,
}

impl View for TitleMap {
    type V = Seq<(Seq<char>, Seq<char>)>;

    closed spec fn view(&self) -> Seq<(Seq<char>, Seq<char>)> {
        self.pairs@.map(|i: int, p: (String, String)| (p.0@, p.1@))
    }
}

impl TitleMap {
    /// The map is well formed when no key repeats.
    pub open spec fn wf(&self) -> bool {
        keys_unique(self@)
    }

    /// An empty map.
    pub fn new() -> (r: TitleMap)
        ensures
            r@ =~= Seq::<(Seq<char>, Seq<char>)>::empty(),
            r.wf(),
    {
        TitleMap { pairs: Vec::new() }
    }

    /// How many languages hold an entry.
    pub fn len(&self) -> (n: usize)
        ensures
            n == self@.len(),
    {
        self.pairs.len()
    }

    /// The position of the entry that holds `k`, if one does.
    fn index_of_key(&self, k: &str) -> (r: Option<usize>)
        ensures
            match r {
                Some(j) => {
                    &&& j < self@.len()
                    &&& self@[j as int].0 == k@
                    &&& forall|m: int| 0 <= m < j ==> (#[trigger] self@[m]).0 != k@
                },
                None => forall|m: int| 0 <= m < self@.len() ==> (#[trigger] self@[m]).0 != k@,
            },
    {
        let n = self.pairs.len();
        let mut i: usize = 0;
        while i < n
            invariant
                i <= n,
                n == self@.len(),
                forall|m: int| 0 <= m < i ==> (#[trigger] self@[m]).0 != k@,
            decreases n - i,
        {
            if str_eq(self.pairs[i].0.as_str(), k) {
                return Some(i);
            }
            i += 1;
        }
        None
    }

    /// Bind `k` to `v`: overwrite the entry that holds `k`, or append a new
    /// one when no entry does.
    pub fn insert(&mut self, k: String, v: String)
        requires
            old(self).wf(),
        ensures
            final(self)@ =~= upsert(old(self)@, k@, v@),
            final(self).wf(),
    {
        let ghost pre = self@;
        match self.index_of_key(k.as_str()) {
            Some(j) => {
                proof {
                    lemma_upsert_found(self@, k@, v@, j as int);
                }
                self.pairs[j] = (k, v);
                proof {
                    assert(self@ =~= pre.update(j as int, (k@, v@)));
                    assert forall|i1: int, i2: int|
                        0 <= i1 < i2 < self@.len() implies (#[trigger] self@[i1]).0
                        != (#[trigger] self@[i2]).0 by {
                        assert(pre[i1].0 != pre[i2].0);
                        assert(pre[j as int].0 == k@);
                    }
                }
            },
            None => {
                proof {
                    lemma_upsert_absent(self@, k@, v@);
                }
                self.pairs.push((k, v));
                proof {
                    assert(self@ =~= pre.push((k@, v@)));
                    assert forall|i1: int, i2: int|
                        0 <= i1 < i2 < self@.len() implies (#[trigger] self@[i1]).0
                        != (#[trigger] self@[i2]).0 by {
                        if i2 < pre.len() {
                            assert(pre[i1].0 != pre[i2].0);
                        } else {
                            assert(pre[i1].0 != k@);
                        }
                    }
                }
            },
        }
    }

    /// The text bound to language code `k`, if any is.
    pub fn get<'a>(&'a self, k: &str) -> (r: Option<&'a String>)
        ensures
            match r {
                Some(v) => lookup(self@, k@) == Some(v@),
                None => lookup(self@, k@) is None,
            },
    {
        match self.index_of_key(k) {
            Some(j) => {
                proof {
                    lemma_lookup_found(self@, k@, j as int);
                }
                Some(&self.pairs[j].1)
            },
            None => {
                proof {
                    lemma_lookup_absent(self@, k@);
                }
                None
            },
        }
    }

    /// The entries, in first-insertion order.
    pub fn entries(&self) -> (r: &Vec<(String, String)>)
        ensures
            r@.len() == self@.len(),
            forall|i: int|
                0 <= i < r@.len() ==> (#[trigger] r@[i]).0@ == self@[i].0 && r@[i].1@
                    == self@[i].1,
    {
        &self.pairs
    }
}

/// Character-by-character equality of two string slices.
pub fn str_eq(a: &str, b: &str) -> (r: bool)
    ensures
        r == (a@ == b@),
{
    let la = a.unicode_len();
    let lb = b.unicode_len();
    if la != lb {
        return false;
    }
    let mut i: usize = 0;
    while i < la
        invariant
            i <= la,
            la == a@.len(),
            la == b@.len(),
            forall|j: int| 0 <= j < i ==> a@[j] == b@[j],
        decreases la - i,
    {
        if a.get_char(i) != b.get_char(i) {
            return false;
        }
        i += 1;
    }
    proof {
        assert(a@ =~= b@);
    }
    true
}

} // verus!
