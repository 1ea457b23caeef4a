//! An ordered set of byte-string coordinates.
//!
//! Boundary coordinates are kept as opaque byte strings (never parsed as
//! numbers: only membership and equality matter) in strictly ascending
//! lexicographic order, so that equal sets always have the same layout and
//! comparing two sets element by element is a total order on sets.

use vstd::prelude::*;

use crate::bytes::{
    bytes_cmp, deep, lemma_lex_lt_asymmetric, lemma_lex_lt_connected, lemma_lex_lt_irreflexive,
    lemma_lex_lt_transitive, lemma_strictly_sorted_same_set, lex_lt, strictly_sorted, Comparison,
};

verus! {

/// The start and end coordinates of every region of one kind (exon or CDS)
/// seen for a transcript, as a set of opaque byte strings.
#[derive(Debug)]
pub struct BoundarySet {
    items: Vec<Vec<u8>>,
}

impl View for BoundarySet {
    type V = Set<Seq<u8>>;

    open spec fn view(&self) -> Set<Seq<u8>> {
        self.ordered().to_set()
    }
}

impl BoundarySet {
    /// The boundaries in strictly ascending lexicographic order.
    pub closed spec fn ordered(&self) -> Seq<Seq<u8>> {
        deep(self.items@)
    }

    /// The boundaries are held strictly sorted, so `ordered()` is the one
    /// canonical layout of the set `self@`.
    pub open spec fn inv(&self) -> bool {
        strictly_sorted(self.ordered())
    }

    /// `ordered()` is the canonical layout of the set `self@`.
    pub proof fn lemma_canon(&self)
        requires
            self.inv(),
        ensures
            crate::bytes::canonical_set(self@),
            crate::bytes::canon_of(self@) == self.ordered(),
    {
        assert(strictly_sorted(self.ordered()) && self.ordered().to_set() == self@);
        let q = crate::bytes::canon_of(self@);
        assert(strictly_sorted(q) && q.to_set() == self@);
        lemma_strictly_sorted_same_set(q, self.ordered());
    }

    /// Create an empty boundary set.
    pub fn new() -> (r: BoundarySet)
        ensures
            r.inv(),
            r@ == Set::<Seq<u8>>::empty(),
            r.ordered() == Seq::<Seq<u8>>::empty(),
    {
        let r = BoundarySet { items: Vec::new() };
        proof {
            assert(r.ordered() =~= Seq::<Seq<u8>>::empty());
            assert(r@ =~= Set::<Seq<u8>>::empty());
        }
        r
    }

    /// The number of distinct boundaries.
    pub fn len(&self) -> (n: usize)
        ensures
            n == self.ordered().len(),
    {
        self.items.len()
    }

    /// The boundaries, in ascending order.
    pub fn items(&self) -> (r: &Vec<Vec<u8>>)
        ensures
            deep(r@) == self.ordered(),
    {
        &self.items
    }

    /// Whether `value` is in the set.
    pub fn contains(&self, value: &Vec<u8>) -> (r: bool)
        ensures
            r == self@.contains(value@),
    {
        let n: usize = self.items.len();
        let mut i: usize = 0;
        while i < n
            invariant
                0 <= i <= n,
                n == self.items@.len(),
                forall|j: int| 0 <= j < i ==> self.ordered()[j] != value@,
            decreases n - i,
        {
            match bytes_cmp(&self.items[i], value) {
                Comparison::Equal => {
                    proof {
                        assert(self.ordered()[i as int] == value@);
                        assert(self.ordered().contains(value@));
                    }
                    return true;
                },
                _ => {},
            }
            i = i + 1;
        }
        proof {
            if self.ordered().contains(value@) {
                let k = choose|k: int|
                    0 <= k < self.ordered().len() && self.ordered()[k] == value@;
                assert(self.ordered()[k] != value@);
            }
        }
        false
    }

    /// Insert `value` into the set. Inserting a value already present
    /// leaves the set unchanged.
    pub fn insert(&mut self, value: Vec<u8>)
        requires
            old(self).inv(),
        ensures
            final(self).inv(),
            final(self)@ == old(self)@.insert(value@),
    {
        let n: usize = self.items.len();
        let mut i: usize = 0;
        while i < n
            invariant
                0 <= i <= n,
                n == self.items@.len(),
                *self == *old(self),
                old(self).inv(),
                forall|j: int| 0 <= j < i ==> lex_lt(#[trigger] self.ordered()[j], value@),
            decreases n - i,
        {
            match bytes_cmp(&self.items[i], &value) {
                Comparison::Less => {
                    i = i + 1;
                },
                Comparison::Equal => {
                    proof {
                        assert(self.ordered()[i as int] == value@);
                        assert(self.ordered().contains(value@));
                        assert(self@ =~= old(self)@.insert(value@));
                    }
                    return ;
                },
                Comparison::Greater => {
                    proof {
                        assert forall|j: int| i <= j < self.ordered().len() implies !lex_lt(
                            #[trigger] self.ordered()[j],
                            value@,
                        ) && self.ordered()[j] != value@ by {
                            if j > i {
                                lemma_lex_lt_transitive(
                                    value@,
                                    self.ordered()[i as int],
                                    self.ordered()[j],
                                );
                            }
                            lemma_lex_lt_asymmetric(value@, self.ordered()[j]);
                            lemma_lex_lt_irreflexive(value@);
                        }
                    }
                    self.insert_at(i, value);
                    return ;
                },
            }
        }
        self.insert_at(n, value);
    }

    /// Insert `value` at position `i`, which must be the position keeping
    /// the items strictly sorted.
    fn insert_at(&mut self, i: usize, value: Vec<u8>)
        requires
            old(self).inv(),
            i <= old(self).ordered().len(),
            forall|j: int| 0 <= j < i ==> lex_lt(#[trigger] old(self).ordered()[j], value@),
            forall|j: int|
                i <= j < old(self).ordered().len() ==> !lex_lt(
                    #[trigger] old(self).ordered()[j],
                    value@,
                ) && old(self).ordered()[j] != value@,
        ensures
            final(self).inv(),
            final(self)@ == old(self)@.insert(value@),
    {
        proof {
            // Everything at or after position i is strictly greater.
            assert forall|j: int|
                i <= j < old(self).ordered().len() implies lex_lt(
                value@,
                #[trigger] old(self).ordered()[j],
            ) by {
                lemma_lex_lt_connected(value@, old(self).ordered()[j]);
            }
        }
        self.items.insert(i, value);
        proof {
            let od = old(self).ordered();
            let nw = self.ordered();
            let v = value@;
            assert(nw =~= od.insert(i as int, v)) by {
                assert(self.items@ == old(self).items@.insert(i as int, value));
                assert forall|k: int| 0 <= k < nw.len() implies nw[k] == od.insert(i as int, v)[k]
                    by {
                    od.insert_ensures(i as int, v);
                    if k < i {
                        assert(self.items@[k] == old(self).items@[k]);
                    } else if k == i {
                        assert(self.items@[k] == value);
                    } else {
                        assert(self.items@[k] == old(self).items@[k - 1]);
                    }
                }
            }
            od.insert_ensures(i as int, v);
            // Strict sortedness is preserved.
            assert forall|p: int, q: int| 0 <= p < q < nw.len() implies lex_lt(
                #[trigger] nw[p],
                #[trigger] nw[q],
            ) by {
                if p < i && q < i {
                } else if p < i && q == i {
                } else if p < i && q > i {
                } else if p == i && q > i {
                } else {
                    assert(nw[p] == od[p - 1] && nw[q] == od[q - 1]);
                }
            }
            // The set view gains exactly `value`.
            assert(self@ =~= old(self)@.insert(v)) by {
                assert forall|x: Seq<u8>| nw.contains(x) implies od.contains(x) || x == v by {
                    let k = choose|k: int| 0 <= k < nw.len() && nw[k] == x;
                    if k < i {
                        assert(od[k] == x);
                    } else if k > i {
                        assert(od[k - 1] == x);
                    }
                }
                assert forall|x: Seq<u8>| od.contains(x) implies nw.contains(x) by {
                    let k = choose|k: int| 0 <= k < od.len() && od[k] == x;
                    if k < i {
                        assert(nw[k] == x);
                    } else {
                        assert(nw[k + 1] == x);
                    }
                }
                assert(nw[i as int] == v);
                assert(nw.contains(v));
            }
        }
    }
}

} // verus!
