use vstd::prelude::*;
use crate::bytes::{
    compare_bytes, copy_bytes, lemma_lex_asymmetric, lemma_lex_irreflexive, lemma_lex_total,
    lemma_lex_transitive, lex_lt, Order,
};

verus! {

/// True when the byte strings of `s` are in strictly increasing order.
pub open spec fn strictly_sorted(s: Seq<Seq<u8>>) -> bool {
    forall|i: int, j: int| 0 <= i < j < s.len() ==> lex_lt(s[i], s[j])
}

/// An ordered table from key bytes to value bytes, kept in key order.
pub struct Table {
    keys: Vec<Vec<u8>>,
    vals: Vec<Vec<u8>>,
    model: Ghost<Map<Seq<u8>, Seq<u8>>>,
}

impl View for Table {
    type V = Map<Seq<u8>, Seq<u8>>;

    closed spec fn view(&self) -> Map<Seq<u8>, Seq<u8>> {
        self.model@
    }
}

impl Table {
    /// The keys of the table, in increasing order.
    pub closed spec fn key_order(&self) -> Seq<Seq<u8>> {
        Seq::new(self.keys@.len(), |i: int| self.keys@[i]@)
    }

    pub closed spec fn wf(&self) -> bool {
        &&& self.keys@.len() == self.vals@.len()
        &&& strictly_sorted(self.key_order())
        &&& forall|i: int|
            0 <= i < self.keys@.len() ==> #[trigger] self.model@.contains_key(self.keys@[i]@)
                && self.model@[self.keys@[i]@] == self.vals@[i]@
        &&& forall|k: Seq<u8>|
            #[trigger] self.model@.contains_key(k) ==> exists|i: int|
                0 <= i < self.keys@.len() && self.keys@[i]@ == k
    }

    /// The key order lists each key of the table once, in increasing order.
    pub proof fn lemma_key_order(&self)
        requires
            self.wf(),
        ensures
            strictly_sorted(self.key_order()),
            forall|k: Seq<u8>| self@.contains_key(k) <==> self.key_order().contains(k),
    {
        assert forall|k: Seq<u8>| self@.contains_key(k) <==> self.key_order().contains(k) by {
            if self@.contains_key(k) {
                let i = choose|i: int| 0 <= i < self.keys@.len() && self.keys@[i]@ == k;
                assert(self.key_order()[i] == k);
            }
            if self.key_order().contains(k) {
                let i = choose|i: int| 0 <= i < self.key_order().len() && self.key_order()[i] == k;
                assert(self.model@.contains_key(self.keys@[i]@));
            }
        }
    }

    /// The key order has as many keys as the table.
    pub proof fn lemma_len(&self)
        requires
            self.wf(),
        ensures
            self@.dom().len() == self.key_order().len(),
    {
        self.lemma_key_order();
        let ko = self.key_order();
        assert(ko.no_duplicates()) by {
            assert forall|i: int, j: int| 0 <= i < ko.len() && 0 <= j < ko.len() && i != j implies ko[i] != ko[j] by {
                lemma_lex_irreflexive(ko[i]);
                if i < j {
                    assert(lex_lt(ko[i], ko[j]));
                } else {
                    assert(lex_lt(ko[j], ko[i]));
                }
            }
        }
        ko.unique_seq_to_set();
        assert(ko.to_set() =~= self@.dom());
    }

    /// An empty table.
    pub fn new() -> (r: Table)
        ensures
            r.wf(),
            r@ == Map::<Seq<u8>, Seq<u8>>::empty(),
            r.key_order().len() == 0,
    {
        Table { keys: Vec::new(), vals: Vec::new(), model: Ghost(Map::empty()) }
    }

    /// Number of entries.
    pub fn len(&self) -> (r: usize)
        requires
            self.wf(),
        ensures
            r == self.key_order().len(),
    {
        self.keys.len()
    }

    /// The first position whose key is not below `key`, and whether that key is `key`.
    fn locate(&self, key: &[u8]) -> (r: (usize, bool))
        requires
            self.wf(),
        ensures
            r.0 <= self.keys@.len(),
            forall|j: int| 0 <= j < r.0 ==> lex_lt(#[trigger] self.keys@[j]@, key@),
            r.1 ==> r.0 < self.keys@.len() && self.keys@[r.0 as int]@ == key@,
            !r.1 ==> r.0 < self.keys@.len() ==> lex_lt(key@, self.keys@[r.0 as int]@),
            !r.1 ==> !self@.contains_key(key@),
    {
        let mut i: usize = 0;
        while i < self.keys.len()
            invariant
                self.wf(),
                i <= self.keys@.len(),
                forall|j: int| 0 <= j < i ==> lex_lt(#[trigger] self.keys@[j]@, key@),
            decreases self.keys.len() - i,
        {
            match compare_bytes(self.keys[i].as_slice(), key) {
                Order::Less => {},
                Order::Equal => {
                    return (i, true);
                },
                Order::Greater => {
                    proof {
                        self.lemma_absent_at(i as int, key@);
                    }
                    return (i, false);
                },
            }
            i = i + 1;
        }
        proof {
            assert forall|k: Seq<u8>| self@.contains_key(k) implies k != key@ by {
                let j = choose|j: int| 0 <= j < self.keys@.len() && self.keys@[j]@ == k;
                assert(lex_lt(self.keys@[j]@, key@));
                lemma_lex_irreflexive(key@);
            }
        }
        (i, false)
    }

    proof fn lemma_absent_at(&self, i: int, key: Seq<u8>)
        requires
            self.wf(),
            0 <= i < self.keys@.len(),
            lex_lt(key, self.keys@[i]@),
            forall|j: int| 0 <= j < i ==> lex_lt(#[trigger] self.keys@[j]@, key),
        ensures
            !self@.contains_key(key),
    {
        if self@.contains_key(key) {
            let j = choose|j: int| 0 <= j < self.keys@.len() && self.keys@[j]@ == key;
            lemma_lex_irreflexive(key);
            if j > i {
                assert(lex_lt(self.key_order()[i], self.key_order()[j]));
                lemma_lex_asymmetric(key, self.keys@[i]@);
            }
        }
    }

    /// The value stored under `key`, if any.
    pub fn get(&self, key: &[u8]) -> (r: Option<Vec<u8>>)
        requires
            self.wf(),
        ensures
            r.is_some() == self@.contains_key(key@),
            r.is_some() ==> r.unwrap()@ == self@[key@],
    {
        let (i, found) = self.locate(key);
        if found {
            proof {
                assert(self.model@.contains_key(self.keys@[i as int]@));
            }
            Some(copy_bytes(self.vals[i].as_slice()))
        } else {
            None
        }
    }

    /// True when `key` has an entry.
    pub fn contains(&self, key: &[u8]) -> (r: bool)
        requires
            self.wf(),
        ensures
            r == self@.contains_key(key@),
    {
        let (_, found) = self.locate(key);
        found
    }

    /// Stores `value` under `key`, returning the value it replaced.
    pub fn insert(&mut self, key: Vec<u8>, value: Vec<u8>) -> (r: Option<Vec<u8>>)
        requires
            old(self).wf(),
        ensures
            final(self).wf(),
            final(self)@ == old(self)@.insert(key@, value@),
            r.is_some() == old(self)@.contains_key(key@),
            r.is_some() ==> r.unwrap()@ == old(self)@[key@],
    {
        let (i, found) = self.locate(key.as_slice());
        let ghost k = key@;
        let ghost v = value@;
        let ghost prev = self.key_order();
        if found {
            proof {
                assert(self.model@.contains_key(self.keys@[i as int]@));
            }
            let slot = copy_bytes(self.vals[i].as_slice());
            self.vals.set(i, value);
            self.model = Ghost(self.model@.insert(k, v));
            proof {
                assert(self.key_order() =~= prev);
                assert forall|kk: Seq<u8>| #[trigger] self.model@.contains_key(kk) implies exists|
                    j: int,
                | 0 <= j < self.keys@.len() && self.keys@[j]@ == kk by {
                    if kk != k {
                        assert(old(self).model@.contains_key(kk));
                    }
                }
                assert forall|j: int| 0 <= j < self.keys@.len() implies #[trigger] self.model@.contains_key(
                    self.keys@[j]@,
                ) && self.model@[self.keys@[j]@] == self.vals@[j]@ by {
                    if j != i {
                        assert(old(self).model@.contains_key(old(self).keys@[j]@));
                        assert(self.keys@[j]@ != k) by {
                            lemma_lex_irreflexive(k);
                            if j < i {
                                assert(lex_lt(prev[j], prev[i as int]));
                            } else {
                                assert(lex_lt(prev[i as int], prev[j]));
                            }
                        }
                    }
                }
            }
            Some(slot)
        } else {
            self.keys.insert(i, key);
            self.vals.insert(i, value);
            self.model = Ghost(self.model@.insert(k, v));
            proof {
                let ko = self.key_order();
                assert(ko =~= prev.insert(i as int, k));
                assert forall|a: int, b: int| 0 <= a < b < ko.len() implies lex_lt(ko[a], ko[b]) by {
                    if a == i {
                        if b > i + 1 {
                            assert(lex_lt(prev[i as int], prev[b - 1]));
                            lemma_lex_transitive(k, prev[i as int], prev[b - 1]);
                        }
                    } else if b == i {
                    } else {
                        let a0 = if a < i { a } else { a - 1 };
                        let b0 = if b < i { b } else { b - 1 };
                        assert(lex_lt(prev[a0], prev[b0]));
                    }
                }
                assert forall|kk: Seq<u8>| #[trigger] self.model@.contains_key(kk) implies exists|
                    j: int,
                | 0 <= j < self.keys@.len() && self.keys@[j]@ == kk by {
                    if kk != k {
                        assert(old(self).model@.contains_key(kk));
                        let j0 = choose|j0: int|
                            0 <= j0 < old(self).keys@.len() && old(self).keys@[j0]@ == kk;
                        if j0 < i {
                            assert(self.keys@[j0]@ == kk);
                        } else {
                            assert(self.keys@[j0 + 1]@ == kk);
                        }
                    } else {
                        assert(self.keys@[i as int]@ == kk);
                    }
                }
                assert forall|j: int| 0 <= j < self.keys@.len() implies #[trigger] self.model@.contains_key(
                    self.keys@[j]@,
                ) && self.model@[self.keys@[j]@] == self.vals@[j]@ by {
                    if j < i {
                        assert(old(self).keys@[j] == self.keys@[j]);
                        assert(old(self).model@.contains_key(old(self).keys@[j]@));
                        assert(self.keys@[j]@ != k) by {
                            lemma_lex_irreflexive(k);
                        }
                    } else if j > i {
                        assert(old(self).keys@[j - 1] == self.keys@[j]);
                        assert(old(self).model@.contains_key(old(self).keys@[j - 1]@));
                        assert(self.keys@[j]@ != k);
                    }
                }
            }
            None
        }
    }

    /// Erases the entry of `key`, returning its value.
    pub fn remove(&mut self, key: &[u8]) -> (r: Option<Vec<u8>>)
        requires
            old(self).wf(),
        ensures
            final(self).wf(),
            final(self)@ == old(self)@.remove(key@),
            r.is_some() == old(self)@.contains_key(key@),
            r.is_some() ==> r.unwrap()@ == old(self)@[key@],
    {
        let (i, found) = self.locate(key);
        if !found {
            proof {
                assert(self.model@.remove(key@) =~= self.model@);
            }
            return None;
        }
        let ghost k = key@;
        let ghost prev = self.key_order();
        proof {
            assert(self.model@.contains_key(self.keys@[i as int]@));
        }
        self.keys.remove(i);
        let old_value = self.vals.remove(i);
        self.model = Ghost(self.model@.remove(k));
        proof {
            let ko = self.key_order();
            assert(ko =~= prev.remove(i as int));
            assert forall|a: int, b: int| 0 <= a < b < ko.len() implies lex_lt(ko[a], ko[b]) by {
                let a0 = if a < i { a } else { a + 1 };
                let b0 = if b < i { b } else { b + 1 };
                assert(lex_lt(prev[a0], prev[b0]));
            }
            assert forall|kk: Seq<u8>| #[trigger] self.model@.contains_key(kk) implies exists|j: int|
                0 <= j < self.keys@.len() && self.keys@[j]@ == kk by {
                assert(old(self).model@.contains_key(kk));
                let j0 = choose|j0: int|
                    0 <= j0 < old(self).keys@.len() && old(self).keys@[j0]@ == kk;
                if j0 < i {
                    assert(self.keys@[j0]@ == kk);
                } else {
                    assert(j0 != i);
                    assert(self.keys@[j0 - 1]@ == kk);
                }
            }
            assert forall|j: int| 0 <= j < self.keys@.len() implies #[trigger] self.model@.contains_key(
                self.keys@[j]@,
            ) && self.model@[self.keys@[j]@] == self.vals@[j]@ by {
                lemma_lex_irreflexive(k);
                if j < i {
                    assert(old(self).keys@[j] == self.keys@[j]);
                    assert(old(self).model@.contains_key(old(self).keys@[j]@));
                    assert(lex_lt(prev[j], prev[i as int]));
                } else {
                    assert(old(self).keys@[j + 1] == self.keys@[j]);
                    assert(old(self).model@.contains_key(old(self).keys@[j + 1]@));
                    assert(lex_lt(prev[i as int], prev[j + 1]));
                }
            }
        }
        Some(old_value)
    }

    /// Copies of the keys, in increasing order.
    pub fn keys(&self) -> (r: Vec<Vec<u8>>)
        requires
            self.wf(),
        ensures
            r@.len() == self.key_order().len(),
            forall|i: int| 0 <= i < r@.len() ==> #[trigger] r@[i]@ == self.key_order()[i],
    {
        let mut out: Vec<Vec<u8>> = Vec::new();
        let mut i: usize = 0;
        while i < self.keys.len()
            invariant
                i <= self.keys@.len(),
                out@.len() == i,
                forall|j: int| 0 <= j < i ==> #[trigger] out@[j]@ == self.keys@[j]@,
            decreases self.keys.len() - i,
        {
            out.push(copy_bytes(self.keys[i].as_slice()));
            i = i + 1;
        }
        out
    }

    /// Copies of the values, in the order of their keys.
    pub fn values(&self) -> (r: Vec<Vec<u8>>)
        requires
            self.wf(),
        ensures
            r@.len() == self.key_order().len(),
            forall|i: int| 0 <= i < r@.len() ==> #[trigger] r@[i]@ == self@[self.key_order()[i]],
    {
        let mut out: Vec<Vec<u8>> = Vec::new();
        let mut i: usize = 0;
        while i < self.vals.len()
            invariant
                self.wf(),
                i <= self.vals@.len(),
                out@.len() == i,
                forall|j: int| 0 <= j < i ==> #[trigger] out@[j]@ == self.vals@[j]@,
            decreases self.vals.len() - i,
        {
            out.push(copy_bytes(self.vals[i].as_slice()));
            i = i + 1;
        }
        proof {
            assert forall|j: int| 0 <= j < out@.len() implies #[trigger] out@[j]@ == self@[self.key_order()[j]] by {
                assert(self.model@.contains_key(self.keys@[j]@));
            }
        }
        out
    }
}

} // verus!
