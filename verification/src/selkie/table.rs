//! A table from names to values.
use crate::text;
use crate::text::{chars_of, copy_strings, is};
use vstd::prelude::*;

verus! {

/// A value that can be copied with nothing lost.
pub trait Duplicate: View + Sized {
    fn duplicate(&self) -> (r: Self)
        ensures
            r@ == self@,
    ;
}

/// Copies of the values `v`.
pub fn duplicate_all<T: Duplicate>(v: &[T]) -> (r: Vec<T>)
    ensures
        r@.len() == v@.len(),
        forall|i: int| 0 <= i < v@.len() ==> (#[trigger] r@[i])@ == v@[i]@,
{
    let mut r: Vec<T> = Vec::new();
    let mut i: usize = 0;
    while i < v.len()
        invariant
            i <= v@.len(),
            r@.len() == i,
            forall|j: int| 0 <= j < i ==> (#[trigger] r@[j])@ == v@[j]@,
        decreases v@.len() - i,
    {
        r.push(v[i].duplicate());
        i += 1;
    }
    r
}

/// A table from names to values. No name occurs twice.
#[derive(Clone, Debug)]
pub struct Table<V> {
    keys: Vec<String>,
    values: Vec<V>,
}

/// `k` is the key number `i`.
spec fn key_at(keys: Seq<String>, i: int, k: Seq<char>) -> bool {
    0 <= i < keys.len() && keys[i]@ == k
}

impl<V: View> View for Table<V> {
    type V = Map<Seq<char>, V::V>;

    closed spec fn view(&self) -> Map<Seq<char>, V::V> {
        Map::new(
            |k: Seq<char>| exists|i: int| #[trigger] key_at(self.keys@, i, k),
            |k: Seq<char>| self.values@[choose|i: int| #[trigger] key_at(self.keys@, i, k)]@,
        )
    }
}

impl<V: View> Table<V> {
    /// No name occurs twice, and every name has its value.
    pub closed spec fn wf(self) -> bool {
        &&& self.keys@.len() == self.values@.len()
        &&& forall|i: int, j: int|
            0 <= i < j < self.keys@.len() ==> (#[trigger] self.keys@[i])@ != (
            #[trigger] self.keys@[j])@
    }

    /// What the table holds of `k`.
    pub open spec fn at(self, k: Seq<char>) -> Option<V::V> {
        if self@.dom().contains(k) {
            Some(self@[k])
        } else {
            None
        }
    }

    pub fn new() -> (r: Self)
        ensures
            r.wf(),
            r@ == Map::<Seq<char>, V::V>::empty(),
    {
        let r = Table { keys: Vec::new(), values: Vec::new() };
        assert forall|k: Seq<char>| !r@.dom().contains(k) by {}
        assert(r@ =~= Map::<Seq<char>, V::V>::empty());
        r
    }

    proof fn lemma_at(self, i: int)
        requires
            self.wf(),
            0 <= i < self.keys@.len(),
        ensures
            self@.dom().contains(self.keys@[i]@),
            self@[self.keys@[i]@] == self.values@[i]@,
    {
        let k = self.keys@[i]@;
        assert(key_at(self.keys@, i, k));
        let j = choose|j: int| #[trigger] key_at(self.keys@, j, k);
        assert(key_at(self.keys@, j, k));
        assert(j == i) by {
            if j < i {
                assert(self.keys@[j]@ != self.keys@[i]@);
            }
            if i < j {
                assert(self.keys@[i]@ != self.keys@[j]@);
            }
        }
    }

    fn index_of_key(&self, k: &str) -> (r: Option<usize>)
        requires
            self.wf(),
        ensures
            r matches Some(i) ==> i < self.keys@.len() && self.keys@[i as int]@ == k@
                && self@.dom().contains(k@) && self@[k@] == self.values@[i as int]@,
            r is None ==> !self@.dom().contains(k@) && forall|i: int|
                0 <= i < self.keys@.len() ==> (#[trigger] self.keys@[i])@ != k@,
    {
        let kc = chars_of(k);
        let mut i: usize = 0;
        while i < self.keys.len()
            invariant
                self.wf(),
                kc@ == k@,
                i <= self.keys@.len(),
                forall|j: int| 0 <= j < i ==> (#[trigger] self.keys@[j])@ != k@,
            decreases self.keys@.len() - i,
        {
            if is(&kc, self.keys[i].as_str()) {
                proof {
                    self.lemma_at(i as int);
                }
                return Some(i);
            }
            i += 1;
        }
        assert(!self@.dom().contains(k@)) by {
            if self@.dom().contains(k@) {
                let j = choose|j: int| #[trigger] key_at(self.keys@, j, k@);
                assert(self.keys@[j]@ == k@);
            }
        }
        None
    }

    pub fn contains_key(&self, k: &str) -> (r: bool)
        requires
            self.wf(),
        ensures
            r == self@.dom().contains(k@),
    {
        self.index_of_key(k).is_some()
    }

    pub fn get(&self, k: &str) -> (r: Option<&V>)
        requires
            self.wf(),
        ensures
            (match r {
                Some(v) => Some(v@),
                None => None,
            }) == self.at(k@),
    {
        match self.index_of_key(k) {
            Some(i) => Some(&self.values[i]),
            None => None,
        }
    }

    pub fn get_mut(&mut self, k: &str) -> (r: Option<&mut V>)
        requires
            old(self).wf(),
        ensures
            final(self).wf(),
            match r {
                Some(v) => old(self)@.dom().contains(k@) && v@ == old(self)@[k@]
                    && final(self)@ == old(self)@.insert(k@, final(v)@),
                None => !old(self)@.dom().contains(k@) && final(self)@ == old(self)@,
            },
    {
        match self.index_of_key(k) {
            Some(i) => Some(&mut self.values[i]),
            None => None,
        }
    }

    /// Set the value of `k`.
    pub fn insert(&mut self, k: &str, v: V)
        requires
            old(self).wf(),
        ensures
            final(self).wf(),
            final(self)@ == old(self)@.insert(k@, v@),
    {
        let ghost before = *self;
        match self.index_of_key(k) {
            Some(i) => {
                self.values.set(i, v);
            },
            None => {
                self.keys.push(k.to_owned());
                self.values.push(v);
                proof {
                    assert(self.wf());
                    assert forall|x: Seq<char>| #[trigger] before@.dom().contains(x) implies
                        self@.dom().contains(x) && self@[x] == before@[x] by {
                        let j = choose|j: int| #[trigger] key_at(before.keys@, j, x);
                        assert(key_at(before.keys@, j, x));
                        before.lemma_at(j);
                        assert(self.keys@[j] == before.keys@[j]);
                        self.lemma_at(j);
                    }
                    self.lemma_at(before.keys@.len() as int);
                    assert forall|x: Seq<char>| #[trigger] self@.dom().contains(x) && x
                        != k@ implies before@.dom().contains(x) by {
                        let j = choose|j: int| #[trigger] key_at(self.keys@, j, x);
                        assert(key_at(self.keys@, j, x));
                        assert(key_at(before.keys@, j, x));
                    }
                    let n = before.keys@.len() as int;
                    assert(self.keys@[n]@ == k@);
                    assert(self.values@[n] == v);
                    let want = before@.insert(k@, v@);
                    assert forall|x: Seq<char>| self@.dom().contains(x) == want.dom().contains(x) by {}
                    assert forall|x: Seq<char>| #[trigger] self@.dom().contains(x) implies self@[x]
                        == want[x] by {
                        if x != k@ {
                            assert(before@.dom().contains(x));
                        }
                    }
                    assert(self@ =~= want);
                }
            },
        }
    }
}

impl<V: Duplicate> Table<V> {
    /// A copy of the table.
    pub fn copy(&self) -> (r: Self)
        requires
            self.wf(),
        ensures
            r.wf(),
            r@ == self@,
    {
        let r = Table {
            keys: copy_strings(&self.keys),
            values: duplicate_all(&self.values),
        };
        proof {
            assert(text::strings(r.keys@) == text::strings(self.keys@));
            assert(text::strings(r.keys@).len() == r.keys@.len());
            assert forall|i: int| 0 <= i < r.keys@.len() implies (#[trigger] r.keys@[i])@
                == self.keys@[i]@ by {
                assert(text::strings(r.keys@)[i] == text::strings(self.keys@)[i]);
            }
            assert forall|i: int, k: Seq<char>| key_at(r.keys@, i, k) == #[trigger] key_at(
                self.keys@,
                i,
                k,
            ) by {}
            assert forall|x: Seq<char>| #[trigger] self@.dom().contains(x) implies
                r@.dom().contains(x) && r@[x] == self@[x] by {
                let j = choose|j: int| #[trigger] key_at(self.keys@, j, x);
                assert(key_at(self.keys@, j, x));
                self.lemma_at(j);
                r.lemma_at(j);
            }
            assert forall|x: Seq<char>| #[trigger] r@.dom().contains(x) implies
                self@.dom().contains(x) by {
                let j = choose|j: int| #[trigger] key_at(r.keys@, j, x);
                assert(key_at(r.keys@, j, x));
                assert(key_at(self.keys@, j, x));
            }
            assert(r@ =~= self@);
        }
        r
    }
}

} // verus!
