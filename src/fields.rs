use vstd::prelude::*;

use crate::bytes::bytes_eq;

verus! {

/// A finite map from byte strings to byte strings, kept as a vector of
/// pairs with distinct keys.
pub struct FieldMap {
    items: Vec<(Vec<u8>, Vec<u8>)>,
    model: Ghost<Map<Seq<u8>, Seq<u8>>>,
}

impl View for FieldMap {
    type V = Map<Seq<u8>, Seq<u8>>;

    closed spec fn view(&self) -> Map<Seq<u8>, Seq<u8>> {
        self.model@
    }
}

impl FieldMap {
    /// The pairs are keyed uniquely and describe exactly the map of the view.
    pub closed spec fn wf(&self) -> bool {
        &&& forall|i: int, j: int|
            0 <= i < j < self.items@.len() ==> self.items@[i].0@ != self.items@[j].0@
        &&& forall|i: int|
            0 <= i < self.items@.len() ==> #[trigger] self.model@.contains_key(self.items@[i].0@)
                && self.model@[self.items@[i].0@] == self.items@[i].1@
        &&& forall|k: Seq<u8>|
            #[trigger] self.model@.contains_key(k) ==> exists|i: int|
                0 <= i < self.items@.len() && self.items@[i].0@ == k
        &&& self.model@.dom().finite()
        &&& self.model@.dom().len() == self.items@.len()
    }

    /// The pairs in the order they are kept.
    pub closed spec fn pairs(&self) -> Seq<(Seq<u8>, Seq<u8>)> {
        self.items@.map_values(|p: (Vec<u8>, Vec<u8>)| (p.0@, p.1@))
    }

    /// The pairs list each key of the map once, with its value.
    pub proof fn lemma_pairs(&self)
        requires
            self.wf(),
        ensures
            self.pairs().len() == self@.len(),
            forall|i: int|
                0 <= i < self.pairs().len() ==> self@.contains_key(#[trigger] self.pairs()[i].0)
                    && self@[self.pairs()[i].0] == self.pairs()[i].1,
            forall|k: Seq<u8>| #[trigger]
                self@.contains_key(k) ==> exists|i: int|
                    0 <= i < self.pairs().len() && self.pairs()[i].0 == k,
    {
        assert forall|i: int| 0 <= i < self.pairs().len() implies self@.contains_key(
            #[trigger] self.pairs()[i].0,
        ) && self@[self.pairs()[i].0] == self.pairs()[i].1 by {
            assert(self.model@.contains_key(self.items@[i].0@));
        }
        assert forall|k: Seq<u8>| #[trigger] self@.contains_key(k) implies exists|i: int|
            0 <= i < self.pairs().len() && self.pairs()[i].0 == k by {
            let i = choose|i: int| 0 <= i < self.items@.len() && self.items@[i].0@ == k;
            assert(self.pairs()[i].0 == k);
        }
    }

    pub fn new() -> (r: FieldMap)
        ensures
            r.wf(),
            r@ == Map::<Seq<u8>, Seq<u8>>::empty(),
    {
        FieldMap { items: Vec::new(), model: Ghost(Map::empty()) }
    }

    /// Position of `key` among the pairs.
    fn position(&self, key: &[u8]) -> (r: Option<usize>)
        requires
            self.wf(),
        ensures
            match r {
                Some(i) => i < self.items@.len() && self.items@[i as int].0@ == key@,
                None => !self@.contains_key(key@),
            },
    {
        let mut i: usize = 0;
        while i < self.items.len()
            invariant
                self.wf(),
                i <= self.items@.len(),
                forall|j: int| 0 <= j < i ==> self.items@[j].0@ != key@,
            decreases self.items@.len() - i,
        {
            if bytes_eq(self.items[i].0.as_slice(), key) {
                return Some(i);
            }
            i = i + 1;
        }
        None
    }

    /// Sets `key` to `value`, replacing an earlier value of the same key.
    pub fn insert(&mut self, key: Vec<u8>, value: Vec<u8>)
        requires
            old(self).wf(),
        ensures
            final(self).wf(),
            final(self)@ == old(self)@.insert(key@, value@),
    {
        let ghost k = key@;
        let ghost v = value@;
        let ghost mut pos: int = 0;
        match self.position(key.as_slice()) {
            Some(i) => {
                self.items.set(i, (key, value));
                proof { pos = i as int; }
                self.model = Ghost(self.model@.insert(k, v));
                assert(self.model@.dom() =~= old(self).model@.dom());
            },
            None => {
                self.items.push((key, value));
                proof { pos = old(self).items@.len() as int; }
                self.model = Ghost(self.model@.insert(k, v));
                assert(forall|kk: Seq<u8>| #[trigger] self.model@.contains_key(kk) && kk != k
                    ==> old(self).model@.contains_key(kk));
            },
        }
        assert forall|kk: Seq<u8>| #[trigger] self.model@.contains_key(kk) implies exists|i: int|
            0 <= i < self.items@.len() && self.items@[i].0@ == kk by {
            if kk != k {
                let j = choose|j: int| 0 <= j < old(self).items@.len() && old(self).items@[j].0@ == kk;
                assert(self.items@[j].0@ == kk);
            } else {
                assert(self.items@[pos].0@ == kk);
            }
        }
    }

    /// The value of `key`, if present.
    pub fn get(&self, key: &[u8]) -> (r: Option<&Vec<u8>>)
        requires
            self.wf(),
        ensures
            match r {
                Some(v) => self@.contains_key(key@) && v@ == self@[key@],
                None => !self@.contains_key(key@),
            },
    {
        match self.position(key) {
            Some(i) => {
                assert(self.model@.contains_key(self.items@[i as int].0@));
                Some(&self.items[i].1)
            },
            None => None,
        }
    }

    /// Number of keys.
    pub fn len(&self) -> (r: usize)
        requires
            self.wf(),
        ensures
            r == self@.len(),
    {
        self.items.len()
    }

    /// Whether the map has no key.
    pub fn is_empty(&self) -> (r: bool)
        requires
            self.wf(),
        ensures
            r == (self@.len() == 0),
    {
        self.items.len() == 0
    }

    /// The key and value at position `i` of the pairs.
    pub fn pair_at(&self, i: usize) -> (r: (&Vec<u8>, &Vec<u8>))
        requires
            self.wf(),
            i < self@.len(),
        ensures
            self@.contains_key(r.0@),
            self@[r.0@] == r.1@,
            (r.0@, r.1@) == self.pairs()[i as int],
    {
        assert(self.model@.contains_key(self.items@[i as int].0@));
        (&self.items[i].0, &self.items[i].1)
    }
}

} // verus!
