//! Counts per string key, in order of first insertion.
use crate::categories::{last_index_of, lemma_last_index};
use vstd::prelude::*;

verus! {

/// The count that the entries `d` give `key`: 0 where the key is absent.
pub open spec fn count_of(d: Seq<(Seq<char>, int)>, key: Seq<char>) -> int {
    match last_index_of(d.map_values(|e: (Seq<char>, int)| e.0), key) {
        Some(i) => d[i].1,
        None => 0,
    }
}

/// Finds the last position of `key` in `keys`.
pub fn position_of(keys: &Vec<String>, key: &String) -> (r: Option<usize>)
    ensures
        r matches Some(i) ==> last_index_of(keys@.map_values(|s: String| s@), key@) == Some(
            i as int,
        ),
        r is None ==> last_index_of(keys@.map_values(|s: String| s@), key@) is None,
{
    let ghost ks = keys@.map_values(|s: String| s@);
    let mut k: usize = keys.len();
    assert(ks.subrange(0, k as int) =~= ks);
    while k > 0
        invariant
            k <= keys@.len(),
            ks == keys@.map_values(|s: String| s@),
            last_index_of(ks, key@) == last_index_of(ks.subrange(0, k as int), key@),
        decreases k,
    {
        let ghost pre = ks.subrange(0, k as int);
        assert(pre.drop_last() =~= ks.subrange(0, k - 1));
        if keys[k - 1] == *key {
            return Some(k - 1);
        }
        k = k - 1;
    }
    None
}

/// Occurrence counts per key; each key is held once, in order of first insertion.
pub struct Tally {
    pub keys: Vec<String>,
    pub counts: Vec<usize>,
}

impl View for Tally {
    type V = Seq<(Seq<char>, int)>;

    open spec fn view(&self) -> Seq<(Seq<char>, int)> {
        Seq::new(self.keys@.len(), |i: int| (self.keys@[i]@, self.counts@[i] as int))
    }
}

impl Tally {
    /// The keys and counts agree in length and no key is held twice.
    pub open spec fn wf(&self) -> bool {
        &&& self.keys@.len() == self.counts@.len()
        &&& forall|i: int, j: int|
            0 <= i < j < self.keys@.len() ==> #[trigger] self.keys@[i]@ != #[trigger] self.keys@[j]@
    }

    /// The count of `key` in this tally.
    pub open spec fn count(&self, key: Seq<char>) -> int {
        count_of(self@, key)
    }

    /// An empty tally.
    pub fn new() -> (r: Tally)
        ensures
            r.wf(),
            r@.len() == 0,
    {
        Tally { keys: Vec::new(), counts: Vec::new() }
    }

    /// The count of `key`; 0 where it was never incremented.
    pub fn get(&self, key: &String) -> (r: usize)
        requires
            self.wf(),
        ensures
            r as int == self.count(key@),
    {
        proof {
            assert(self@.map_values(|e: (Seq<char>, int)| e.0) =~= self.keys@.map_values(
                |s: String| s@,
            ));
            lemma_last_index(self.keys@.map_values(|s: String| s@), key@);
        }
        match position_of(&self.keys, key) {
            Some(i) => self.counts[i],
            None => 0,
        }
    }

    /// Adds one to the count of `key`. An existing key keeps its place; a new one is
    /// appended with the count 1.
    pub fn increment(&mut self, key: String)
        requires
            old(self).wf(),
            old(self).count(key@) < usize::MAX,
        ensures
            final(self).wf(),
            forall|k: Seq<char>|
                #[trigger] final(self).count(k) == old(self).count(k) + if k == key@ {
                    1int
                } else {
                    0int
                },
            last_index_of(old(self)@.map_values(|e: (Seq<char>, int)| e.0), key@) matches Some(
                i,
            ) ==> final(self)@ == old(self)@.update(i, (key@, old(self)@[i].1 + 1)),
            last_index_of(old(self)@.map_values(|e: (Seq<char>, int)| e.0), key@) is None
                ==> final(self)@ == old(self)@.push((key@, 1int)),
    {
        let ghost old_view = self@;
        let ghost old_keys = old_view.map_values(|e: (Seq<char>, int)| e.0);
        assert(old_keys =~= self.keys@.map_values(|s: String| s@));
        proof {
            lemma_last_index(old_keys, key@);
        }
        match position_of(&self.keys, &key) {
            Some(i) => {
                let c = self.counts[i];
                self.counts.set(i, c + 1);
                proof {
                    assert(self@ =~= old_view.update(i as int, (key@, old_view[i as int].1 + 1)));
                    assert(self@.map_values(|e: (Seq<char>, int)| e.0) =~= old_keys);
                    assert(self.keys@ == old(self).keys@);
                    assert forall|k: Seq<char>|
                        #[trigger] self.count(k) == count_of(old_view, k) + if k == key@ {
                            1int
                        } else {
                            0int
                        } by {
                        lemma_last_index(old_keys, k);
                    };
                }
            },
            None => {
                self.keys.push(key);
                self.counts.push(1);
                proof {
                    assert(self@ =~= old_view.push((key@, 1int)));
                    let new_keys = self@.map_values(|e: (Seq<char>, int)| e.0);
                    assert(new_keys =~= old_keys.push(key@));
                    assert(new_keys.drop_last() =~= old_keys);
                    assert forall|k: Seq<char>|
                        #[trigger] self.count(k) == count_of(old_view, k) + if k == key@ {
                            1int
                        } else {
                            0int
                        } by {
                        lemma_last_index(old_keys, k);
                        if k != key@ {
                            match last_index_of(old_keys, k) {
                                Some(j) => assert(self@[j] == old_view[j]),
                                None => {},
                            }
                        }
                    };
                    assert forall|a: int, b: int|
                        0 <= a < b < self.keys@.len() implies #[trigger] self.keys@[a]@
                        != #[trigger] self.keys@[b]@ by {
                        if b == self.keys@.len() - 1 {
                            assert(old_keys[a] == self.keys@[a]@);
                        } else {
                            assert(old(self).keys@[a] == self.keys@[a]);
                            assert(old(self).keys@[b] == self.keys@[b]);
                        }
                    };
                }
            },
        }
    }
}

} // verus!
