//! The set of keys held down at a moment.

use vstd::prelude::*;
use crate::macros::string_views;

verus! {

/// The keys currently held, each once, as `KeyboardEvent.code` strings.
#[derive(Debug)]
pub struct KeySet {
    keys: Vec<String>,
}

impl View for KeySet {
    type V = Set<Seq<char>>;

    closed spec fn view(&self) -> Set<Seq<char>> {
        string_views(self.keys@).to_set()
    }
}

impl KeySet {
    #[verifier::type_invariant]
    closed spec fn no_key_twice(&self) -> bool {
        string_views(self.keys@).no_duplicates()
    }

    /// Index of the key `key` in the list, if it is there.
    fn position(&self, key: &String) -> (r: Option<usize>)
        ensures
            match r {
                Some(i) => i < self.keys@.len() && self.keys@[i as int]@ == key@,
                None => !string_views(self.keys@).contains(key@),
            },
    {
        let mut i: usize = 0;
        while i < self.keys.len()
            invariant
                i <= self.keys@.len(),
                forall|k: int| 0 <= k < i ==> #[trigger] self.keys@[k]@ != key@,
            decreases self.keys.len() - i,
        {
            if self.keys[i] == *key {
                return Some(i);
            }
            i = i + 1;
        }
        assert forall|k: int| 0 <= k < string_views(self.keys@).len() implies string_views(self.keys@)[k] != key@ by {
            assert(self.keys@[k]@ != key@);
        }
        None
    }

    /// No key held.
    pub fn new() -> (r: KeySet)
        ensures
            r@ == Set::<Seq<char>>::empty(),
    {
        let r = KeySet { keys: Vec::new() };
        assert(string_views(r.keys@) =~= Seq::<Seq<char>>::empty());
        assert(r@ =~= Set::<Seq<char>>::empty());
        r
    }

    /// Only finitely many keys are ever held.
    pub proof fn lemma_held_keys_finite(&self)
        ensures
            self@.finite(),
    {
        vstd::seq_lib::seq_to_set_is_finite(string_views(self.keys@));
    }

    /// Whether `key` is held.
    pub fn contains(&self, key: &String) -> (r: bool)
        ensures
            r == self@.contains(key@),
    {
        let p = self.position(key);
        proof {
            if let Some(i) = p {
                assert(string_views(self.keys@)[i as int] == key@);
            }
        }
        p.is_some()
    }

    /// How many keys are held.
    pub fn len(&self) -> (r: usize)
        ensures
            self@.finite(),
            r == self@.len(),
    {
        proof {
            self.lemma_held_keys_finite();
            use_type_invariant(self);
            string_views(self.keys@).unique_seq_to_set();
        }
        self.keys.len()
    }

    /// Marks `key` as held. Returns whether it was not held before.
    pub fn insert(&mut self, key: String) -> (newly: bool)
        ensures
            newly == !old(self)@.contains(key@),
            final(self)@ == old(self)@.insert(key@),
    {
        proof {
            use_type_invariant(&*self);
        }
        let p = self.position(&key);
        match p {
            Some(i) => {
                assert(string_views(self.keys@)[i as int] == key@);
                assert(self@.insert(key@) =~= self@);
                false
            },
            None => {
                let ghost before = self.keys@;
                let ghost kv = key@;
                let mut keys: Vec<String> = Vec::new();
                std::mem::swap(&mut keys, &mut self.keys);
                keys.push(key);
                proof {
                    let after = string_views(keys@);
                    assert(after =~= string_views(before).push(kv));
                    assert forall|a: int, b: int| 0 <= a < after.len() && 0 <= b < after.len() && a != b
                        implies after[a] != after[b] by {
                        if a < before.len() && b < before.len() {
                            assert(string_views(before)[a] == after[a]);
                            assert(string_views(before)[b] == after[b]);
                        } else if a < before.len() {
                            assert(string_views(before)[a] == after[a]);
                        } else {
                            assert(string_views(before)[b] == after[b]);
                        }
                    }
                }
                self.keys = keys;
                assert(string_views(self.keys@) =~= string_views(before).push(kv));
                assert(self@ =~= string_views(before).to_set().insert(kv)) by {
                    string_views(before).lemma_push_to_set_commute(kv);
                }
                true
            },
        }
    }

    /// Marks `key` as no longer held.
    pub fn remove(&mut self, key: &String)
        ensures
            final(self)@ == old(self)@.remove(key@),
    {
        proof {
            use_type_invariant(&*self);
        }
        let p = self.position(key);
        match p {
            Some(i) => {
                let ghost before = string_views(self.keys@);
                let mut keys: Vec<String> = Vec::new();
                std::mem::swap(&mut keys, &mut self.keys);
                let _ = keys.remove(i);
                proof {
                    assert(string_views(keys@) =~= before.remove(i as int));
                }
                self.keys = keys;
                assert(string_views(self.keys@) =~= before.remove(i as int));
                assert forall|x: Seq<char>| #[trigger] self@.contains(x) == before.to_set().remove(key@).contains(x) by {
                    if before.remove(i as int).contains(x) {
                        let k = choose|k: int| 0 <= k < before.remove(i as int).len() && before.remove(i as int)[k] == x;
                        if k < i {
                            assert(before[k] == x);
                            assert(before[i as int] == key@);
                        } else {
                            assert(before[k + 1] == x);
                            assert(before[i as int] == key@);
                        }
                        assert(before.contains(x));
                    }
                    if x != key@ && before.contains(x) {
                        let k = choose|k: int| 0 <= k < before.len() && before[k] == x;
                        if k < i {
                            assert(before.remove(i as int)[k] == x);
                        } else {
                            assert(before.remove(i as int)[k - 1] == x);
                        }
                    }
                }
                assert(self@ =~= old(self)@.remove(key@));
            },
            None => {
                assert(self@ =~= self@.remove(key@));
            },
        }
    }
}

} // verus!
