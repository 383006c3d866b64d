//! A small table from texts to values that remembers the order of its keys.

use vstd::prelude::*;
use crate::text::same;

verus! {

/// A table with text keys. A key stands in it at most once.
#[derive(Debug)]
pub struct Dict<V> {
    keys: Vec<String>,
    values: Vec<V>,
}

impl<V> Dict<V> {
    #[verifier::type_invariant]
    spec fn wf(self) -> bool {
        &&& self.keys@.len() == self.values@.len()
        &&& forall|i: int, j: int|
            0 <= i < j < self.keys@.len() ==> (#[trigger] self.keys@[i])@ != (
            #[trigger] self.keys@[j])@
    }

    /// The keys, in the order they were first put in.
    pub closed spec fn key_list(&self) -> Seq<Seq<char>> {
        self.keys@.map_values(|k: String| k@)
    }

    /// The values, each where its key stands in the list of keys.
    pub closed spec fn value_list(&self) -> Seq<V> {
        self.values@
    }

    pub open spec fn spec_contains(&self, key: Seq<char>) -> bool {
        exists|i: int| 0 <= i < self.key_list().len() && #[trigger] self.key_list()[i] == key
    }

    /// The value that stands under `key`.
    pub open spec fn spec_get(&self, key: Seq<char>) -> Option<V> {
        if self.spec_contains(key) {
            Some(
                self.value_list()[choose|i: int|
                    0 <= i < self.key_list().len() && #[trigger] self.key_list()[i] == key],
            )
        } else {
            None
        }
    }

    pub fn new() -> (r: Self)
        ensures
            r.key_list() == Seq::<Seq<char>>::empty(),
            r.value_list() == Seq::<V>::empty(),
            forall|k: Seq<char>| #[trigger] r.spec_get(k) is None,
    {
        let r = Dict { keys: Vec::new(), values: Vec::new() };
        assert(r.key_list() =~= Seq::<Seq<char>>::empty());
        r
    }

    pub fn len(&self) -> (r: usize)
        ensures
            r == self.key_list().len(),
            r == self.value_list().len(),
    {
        proof {
            use_type_invariant(self);
        }
        self.keys.len()
    }

    pub fn key_at(&self, i: usize) -> (r: &String)
        requires
            i < self.key_list().len(),
        ensures
            r@ == self.key_list()[i as int],
    {
        &self.keys[i]
    }

    pub fn value_at(&self, i: usize) -> (r: &V)
        requires
            i < self.key_list().len(),
        ensures
            *r == self.value_list()[i as int],
            self.spec_get(self.key_list()[i as int]) == Some(*r),
    {
        proof {
            use_type_invariant(self);
            self.lemma_get_at(i as int);
        }
        &self.values[i]
    }

    proof fn lemma_get_at(&self, i: int)
        requires
            self.wf(),
            0 <= i < self.keys@.len(),
        ensures
            self.spec_get(self.keys@[i]@) == Some(self.values@[i]),
    {
        let key = self.keys@[i]@;
        assert(self.key_list()[i] == key);
        let j = choose|j: int|
            0 <= j < self.key_list().len() && #[trigger] self.key_list()[j] == key;
        assert(self.keys@[j]@ == key);
        assert(i == j);
    }

    fn find(&self, key: &str) -> (r: Option<usize>)
        ensures
            match r {
                Some(i) => i < self.keys@.len() && self.keys@[i as int]@ == key@,
                None => forall|i: int| 0 <= i < self.keys@.len() ==> (#[trigger] self.keys@[i])@
                    != key@,
            },
    {
        let mut i: usize = 0;
        while i < self.keys.len()
            invariant
                i <= self.keys@.len(),
                forall|j: int| 0 <= j < i ==> (#[trigger] self.keys@[j])@ != key@,
            decreases self.keys@.len() - i,
        {
            if same(self.keys[i].as_str(), key) {
                return Some(i);
            }
            i = i + 1;
        }
        None
    }

    pub fn get(&self, key: &str) -> (r: Option<&V>)
        ensures
            match r {
                Some(v) => self.spec_get(key@) == Some(*v),
                None => self.spec_get(key@) is None,
            },
    {
        proof {
            use_type_invariant(self);
        }
        match self.find(key) {
            Some(i) => {
                proof {
                    self.lemma_get_at(i as int);
                }
                Some(&self.values[i])
            },
            None => {
                proof {
                    assert forall|i: int| 0 <= i < self.key_list().len() implies
                        #[trigger] self.key_list()[i] != key@ by {
                        assert(self.keys@[i]@ != key@);
                    }
                }
                None
            },
        }
    }

    pub fn contains_key(&self, key: &str) -> (r: bool)
        ensures
            r == self.spec_contains(key@),
            r == (self.spec_get(key@) is Some),
    {
        self.get(key).is_some()
    }

    /// Puts `value` under `key`, in place of what stood there.
    pub fn insert(&mut self, key: &str, value: V)
        ensures
            forall|k: Seq<char>| #[trigger]
                final(self).spec_get(k) == (if k == key@ {
                    Some(value)
                } else {
                    old(self).spec_get(k)
                }),
            !old(self).spec_contains(key@) ==> final(self).key_list() == old(self).key_list().push(
                key@,
            ),
            old(self).spec_contains(key@) ==> final(self).key_list() == old(self).key_list(),
    {
        proof {
            use_type_invariant(&*self);
        }
        let ghost before = *self;
        match self.find(key) {
            Some(i) => {
                let mut taken = Dict { keys: Vec::new(), values: Vec::new() };
                core::mem::swap(self, &mut taken);
                let Dict { mut keys, mut values } = taken;
                values.set(i, value);
                let next = Dict { keys, values };
                *self = next;
                proof {
                    assert(self.key_list() =~= before.key_list());
                    assert(before.key_list()[i as int] == key@);
                    assert forall|k: Seq<char>| #[trigger]
                        self.spec_get(k) == (if k == key@ {
                            Some(value)
                        } else {
                            before.spec_get(k)
                        }) by {
                        if before.spec_contains(k) {
                            let j = choose|j: int|
                                0 <= j < before.key_list().len() && #[trigger] before.key_list()[j]
                                    == k;
                            assert(before.keys@[j]@ == k);
                            assert(self.keys@[j]@ == k);
                            self.lemma_get_at(j);
                            before.lemma_get_at(j);
                        } else {
                            assert forall|j: int| 0 <= j < self.key_list().len() implies
                                #[trigger] self.key_list()[j] != k by {
                                assert(before.key_list()[j] != k);
                            }
                        }
                    }
                }
            },
            None => {
                let mut taken = Dict { keys: Vec::new(), values: Vec::new() };
                core::mem::swap(self, &mut taken);
                let Dict { mut keys, mut values } = taken;
                keys.push(key.to_string());
                values.push(value);
                let next = Dict { keys, values };
                *self = next;
                proof {
                    assert(self.key_list() =~= before.key_list().push(key@));
                    assert forall|j: int| 0 <= j < before.key_list().len() implies
                        #[trigger] before.key_list()[j] != key@ by {
                        assert(before.keys@[j]@ != key@);
                    }
                    assert forall|k: Seq<char>| #[trigger]
                        self.spec_get(k) == (if k == key@ {
                            Some(value)
                        } else {
                            before.spec_get(k)
                        }) by {
                        if k == key@ {
                            self.lemma_get_at(self.keys@.len() - 1);
                        } else if before.spec_contains(k) {
                            let j = choose|j: int|
                                0 <= j < before.key_list().len() && #[trigger] before.key_list()[j]
                                    == k;
                            assert(before.keys@[j]@ == k);
                            assert(self.keys@[j]@ == k);
                            self.lemma_get_at(j);
                            before.lemma_get_at(j);
                        } else {
                            assert forall|j: int| 0 <= j < self.key_list().len() implies
                                #[trigger] self.key_list()[j] != k by {
                                if j < before.key_list().len() {
                                    assert(before.key_list()[j] != k);
                                }
                            }
                        }
                    }
                }
            },
        }
    }
}

} // verus!
