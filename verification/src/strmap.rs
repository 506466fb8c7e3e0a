//! The canonical string-to-string mapping used for headers, query
//! parameters and path parameters.
//!
//! The mapping is a flat list of key/value pairs whose keys are unique;
//! inserting an existing key replaces its value (last value wins).

use vstd::prelude::*;

verus! {

/// A mapping from strings to strings with unique keys.
#[derive(Debug)]
pub struct StringMap {
    pairs: Vec<(String, String)>,
}

impl StringMap {
    /// The entries as a sequence of key/value pairs of character sequences.
    pub closed spec fn entries(self) -> Seq<(Seq<char>, Seq<char>)> {
        self.pairs@.map(|i: int, p: (String, String)| (p.0@, p.1@))
    }

    /// Well-formed: no key occurs twice.
    pub open spec fn wf(self) -> bool {
        forall|i: int, j: int|
            0 <= i < j < self.entries().len() ==> (#[trigger] self.entries()[i]).0 != (
            #[trigger] self.entries()[j]).0
    }

    /// Whether some entry binds `k`.
    pub open spec fn spec_contains(self, k: Seq<char>) -> bool {
        exists|i: int| 0 <= i < self.entries().len() && (#[trigger] self.entries()[i]).0 == k
    }

    /// The value bound to `k`, if any.
    pub open spec fn spec_get(self, k: Seq<char>) -> Option<Seq<char>> {
        if self.spec_contains(k) {
            let i = choose|i: int|
                0 <= i < self.entries().len() && (#[trigger] self.entries()[i]).0 == k;
            Some(self.entries()[i].1)
        } else {
            None
        }
    }

    /// The empty mapping.
    pub fn new() -> (r: StringMap)
        ensures
            r.wf(),
            r.entries() =~= Seq::<(Seq<char>, Seq<char>)>::empty(),
    {
        StringMap { pairs: Vec::new() }
    }

    /// How many keys are bound.
    pub fn len(&self) -> (r: usize)
        ensures
            r == self.entries().len(),
    {
        self.pairs.len()
    }

    /// The key of the entry at position `i`.
    pub fn key_at(&self, i: usize) -> (r: &String)
        requires
            i < self.entries().len(),
        ensures
            r@ == self.entries()[i as int].0,
    {
        &self.pairs[i].0
    }

    /// The value of the entry at position `i`.
    pub fn value_at(&self, i: usize) -> (r: &String)
        requires
            i < self.entries().len(),
        ensures
            r@ == self.entries()[i as int].1,
    {
        &self.pairs[i].1
    }

    /// The position of the entry binding `k`, if any.
    fn index_of_key(&self, k: &String) -> (r: Option<usize>)
        ensures
            match r {
                Some(i) => i < self.entries().len() && self.entries()[i as int].0 == k@,
                None => forall|j: int|
                    0 <= j < self.entries().len() ==> (#[trigger] self.entries()[j]).0 != k@,
            },
    {
        let mut i: usize = 0;
        let n = self.pairs.len();
        while i < n
            invariant
                n == self.entries().len(),
                i <= n,
                forall|j: int| 0 <= j < i ==> (#[trigger] self.entries()[j]).0 != k@,
            decreases n - i,
        {
            if self.pairs[i].0 == *k {
                return Some(i);
            }
            i += 1;
        }
        None
    }

    /// Binds `k` to `v`; an earlier binding of `k` is dropped.
    pub fn insert(&mut self, k: String, v: String)
        requires
            old(self).wf(),
        ensures
            final(self).wf(),
            final(self).spec_get(k@) == Some(v@),
            forall|k2: Seq<char>|
                k2 != k@ ==> #[trigger] final(self).spec_get(k2) == old(self).spec_get(k2),
            final(self).entries().len() <= old(self).entries().len() + 1,
    {
        let ghost pre = *self;
        let found = self.index_of_key(&k);
        let ghost n = pre.entries().len() as int;
        let ghost iremoved: int = match found {
            Some(i) => i as int,
            None => n,
        };
        if let Some(i) = found {
            let _ = self.pairs.remove(i);
            proof {
                assert(self.entries() =~= pre.entries().remove(i as int));
            }
        }
        let ghost mid = *self;
        self.pairs.push((k, v));
        proof {
            assert(self.entries() =~= mid.entries().push((k@, v@)));
            let last = self.entries().len() - 1;
            // every surviving entry comes from `pre`, with indices past the
            // removed one shifted down
            assert forall|w: int| 0 <= w < last implies self.entries()[w] == pre.entries()[
                if w < iremoved {
                    w
                } else {
                    w + 1
                }
            ] by {}
            assert(self.entries()[last].0 == k@);
            assert(self.spec_get(k@) == Some(v@)) by {
                let w = choose|w: int|
                    0 <= w < self.entries().len() && (#[trigger] self.entries()[w]).0 == k@;
                if w < last {
                    let o = if w < iremoved {
                        w
                    } else {
                        w + 1
                    };
                    assert(pre.entries()[o].0 == k@);
                    assert(iremoved < n && pre.entries()[iremoved].0 == k@);
                    assert(false);
                }
            }
            assert forall|k2: Seq<char>| k2 != k@ implies #[trigger] self.spec_get(k2) == pre
                .spec_get(k2) by {
                if self.spec_contains(k2) {
                    let w = choose|w: int|
                        0 <= w < self.entries().len() && (#[trigger] self.entries()[w]).0 == k2;
                    assert(w < last);
                    let o = if w < iremoved {
                        w
                    } else {
                        w + 1
                    };
                    assert(pre.entries()[o].0 == k2);
                    assert(pre.spec_contains(k2));
                    let po = choose|po: int|
                        0 <= po < pre.entries().len() && (#[trigger] pre.entries()[po]).0 == k2;
                    assert(pre.entries()[po] == pre.entries()[o]);
                } else if pre.spec_contains(k2) {
                    let po = choose|po: int|
                        0 <= po < pre.entries().len() && (#[trigger] pre.entries()[po]).0 == k2;
                    if po == iremoved {
                        assert(pre.entries()[iremoved].0 == k@);
                        assert(false);
                    } else {
                        let w = if po < iremoved {
                            po
                        } else {
                            po - 1
                        };
                        assert(self.entries()[w] == pre.entries()[po]);
                        assert(self.spec_contains(k2));
                        assert(false);
                    }
                }
            }
            assert(self.wf()) by {
                assert forall|a: int, b: int|
                    0 <= a < b < self.entries().len() implies (#[trigger] self.entries()[a]).0
                    != (#[trigger] self.entries()[b]).0 by {
                    let oa = if a < iremoved {
                        a
                    } else {
                        a + 1
                    };
                    if b < last {
                        let ob = if b < iremoved {
                            b
                        } else {
                            b + 1
                        };
                        assert(self.entries()[a] == pre.entries()[oa]);
                        assert(self.entries()[b] == pre.entries()[ob]);
                    } else {
                        // the last entry binds k, and no surviving entry does
                        if self.entries()[a].0 == k@ {
                            assert(pre.entries()[oa].0 == k@);
                            assert(iremoved < n && pre.entries()[iremoved].0 == k@);
                            assert(false);
                        }
                    }
                }
            }
        }
    }

    /// The value bound to `k`, if any.
    pub fn get(&self, k: &str) -> (r: Option<&String>)
        requires
            self.wf(),
        ensures
            match r {
                Some(v) => self.spec_get(k@) == Some(v@),
                None => self.spec_get(k@) is None,
            },
    {
        let ks = k.to_owned();
        match self.index_of_key(&ks) {
            Some(i) => {
                proof {
                    let w = choose|w: int|
                        0 <= w < self.entries().len() && (#[trigger] self.entries()[w]).0 == k@;
                    assert(self.entries()[w].0 == self.entries()[i as int].0);
                }
                Some(&self.pairs[i].1)
            },
            None => None,
        }
    }

    /// Whether `k` is bound.
    pub fn contains_key(&self, k: &str) -> (r: bool)
        requires
            self.wf(),
        ensures
            r == self.spec_contains(k@),
    {
        self.get(k).is_some()
    }
}

} // verus!
