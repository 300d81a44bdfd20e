use vstd::hash_map::StringHashMap;
use vstd::prelude::*;

verus! {

/// A set of distinct strings, each with a slot number: the first string added
/// has slot 0, the next slot 1, and so on. A string is found by hashing; the
/// strings are walked in the order of their slots, which is the order in
/// which they were added.
pub(crate) struct KeyIndex {
    slots: StringHashMap<usize>,
    keys: Vec<String>,
}

impl KeyIndex {
    /// The slots and the keys agree: each key's slot holds that key.
    pub closed spec fn wf(&self) -> bool {
        &&& forall|k: Seq<char>| #[trigger]
            self.slots@.contains_key(k) ==> self.slots@[k] < self.keys.len()
                && self.keys[self.slots@[k] as int]@ == k
        &&& forall|i: int|
            0 <= i < self.keys.len() ==> self.slots@.contains_key((#[trigger] self.keys[i])@)
                && self.slots@[self.keys[i]@] == i
    }

    /// The number of keys.
    pub closed spec fn count(&self) -> nat {
        self.keys.len() as nat
    }

    /// The key in slot `i`.
    pub closed spec fn key_at(&self, i: int) -> Seq<char> {
        self.keys[i]@
    }

    /// Whether `k` is one of the keys.
    pub closed spec fn has(&self, k: Seq<char>) -> bool {
        self.slots@.contains_key(k)
    }

    /// The slot of the key `k`.
    pub closed spec fn slot(&self, k: Seq<char>) -> int {
        self.slots@[k] as int
    }

    /// In a well-formed index the slot of a key holds that key, so distinct
    /// slots hold distinct keys, and the keys are exactly what the slots hold.
    pub proof fn lemma_slots(&self)
        requires
            self.wf(),
        ensures
            forall|k: Seq<char>| #[trigger]
                self.has(k) ==> 0 <= self.slot(k) < self.count() && self.key_at(self.slot(k)) == k,
            forall|i: int|
                0 <= i < self.count() ==> self.has(#[trigger] self.key_at(i)) && self.slot(
                    self.key_at(i),
                ) == i,
    {
    }

    /// An index without keys.
    pub fn new() -> (index: KeyIndex)
        ensures
            index.wf(),
            index.count() == 0,
            forall|k: Seq<char>| !index.has(k),
    {
        KeyIndex { slots: StringHashMap::new(), keys: Vec::new() }
    }

    /// The key in slot `i`.
    pub fn key(&self, i: usize) -> (k: &String)
        requires
            i < self.count(),
        ensures
            k@ == self.key_at(i as int),
    {
        &self.keys[i]
    }

    /// The slot of `k`, if it is a key.
    pub fn find(&self, k: &str) -> (found: Option<usize>)
        requires
            self.wf(),
        ensures
            match found {
                Some(i) => self.has(k@) && i == self.slot(k@) && i < self.count()
                    && self.key_at(i as int) == k@,
                None => !self.has(k@),
            },
    {
        match self.slots.get(k) {
            Some(i) => Some(*i),
            None => None,
        }
    }

    /// Adds a new key and returns its slot, the next free one.
    pub fn add(&mut self, k: String) -> (i: usize)
        requires
            old(self).wf(),
            !old(self).has(k@),
        ensures
            final(self).wf(),
            i == old(self).count(),
            final(self).count() == old(self).count() + 1,
            final(self).key_at(i as int) == k@,
            final(self).slot(k@) == i,
            forall|j: int| 0 <= j < old(self).count() ==> final(self).key_at(j) == old(self).key_at(j),
            forall|x: Seq<char>| #[trigger] final(self).has(x) <==> old(self).has(x) || x == k@,
            forall|x: Seq<char>| old(self).has(x) ==> final(self).slot(x) == old(self).slot(x),
    {
        let i = self.keys.len();
        let copy = k.clone();
        self.keys.push(k);
        self.slots.insert(copy, i);
        i
    }
}

} // verus!
