use vstd::prelude::*;
use crate::keyindex::KeyIndex;
use crate::library::{Artwork, ArtworkView};

verus! {

/// The cover images of a library, each under its content hash.
pub(crate) struct ArtworkMap {
    keys: KeyIndex,
    items: Vec<Artwork>,
}

impl View for ArtworkMap {
    type V = Map<Seq<char>, ArtworkView>;

    closed spec fn view(&self) -> Map<Seq<char>, ArtworkView> {
        Map::new(|k: Seq<char>| self.keys.has(k), |k: Seq<char>| self.items[self.keys.slot(k)]@)
    }
}

impl ArtworkMap {
    /// Every key has its image.
    pub closed spec fn wf(&self) -> bool {
        self.keys.wf() && self.keys.count() == self.items.len()
    }

    /// The number of images.
    pub closed spec fn count(&self) -> nat {
        self.items.len() as nat
    }

    /// The content hash in slot `i`.
    pub closed spec fn key_at(&self, i: int) -> Seq<char> {
        self.keys.key_at(i)
    }

    /// The image in slot `i`.
    pub closed spec fn item_at(&self, i: int) -> ArtworkView {
        self.items[i]@
    }

    /// The slots hold the images of the view, each once.
    pub proof fn lemma_slots(&self)
        requires
            self.wf(),
        ensures
            forall|i: int|
                0 <= i < self.count() ==> self@.dom().contains(#[trigger] self.key_at(i))
                    && self@[self.key_at(i)] == self.item_at(i),
            forall|i: int, j: int|
                0 <= i < self.count() && 0 <= j < self.count() && self.key_at(i) == self.key_at(j)
                    ==> i == j,
            forall|k: Seq<char>| #[trigger]
                self@.dom().contains(k) ==> exists|i: int|
                    0 <= i < self.count() && self.key_at(i) == k,
    {
        self.keys.lemma_slots();
        assert forall|k: Seq<char>| #[trigger] self@.dom().contains(k) implies exists|i: int|
            0 <= i < self.count() && self.key_at(i) == k by {
            assert(self.key_at(self.keys.slot(k)) == k);
        }
    }

    /// A map without images.
    pub fn new() -> (map: ArtworkMap)
        ensures
            map.wf(),
            map@ == Map::<Seq<char>, ArtworkView>::empty(),
            map.count() == 0,
    {
        let map = ArtworkMap { keys: KeyIndex::new(), items: Vec::new() };
        assert(map@ =~= Map::<Seq<char>, ArtworkView>::empty());
        map
    }

    /// The number of images.
    pub fn len(&self) -> (n: usize)
        ensures
            n == self.count(),
    {
        self.items.len()
    }

    /// The content hash in slot `i`.
    pub fn key(&self, i: usize) -> (k: &String)
        requires
            self.wf(),
            i < self.count(),
        ensures
            k@ == self.key_at(i as int),
    {
        self.keys.key(i)
    }

    /// The image in slot `i`.
    pub fn item(&self, i: usize) -> (a: &Artwork)
        requires
            i < self.count(),
        ensures
            a@ == self.item_at(i as int),
    {
        &self.items[i]
    }

    /// The image with content hash `id`, if there is one.
    pub fn get(&self, id: &str) -> (found: Option<&Artwork>)
        requires
            self.wf(),
        ensures
            match found {
                Some(a) => self@.dom().contains(id@) && a@ == self@[id@],
                None => !self@.dom().contains(id@),
            },
    {
        match self.keys.find(id) {
            Some(i) => Some(&self.items[i]),
            None => None,
        }
    }

    /// Stores `art` under `id` unless an image is stored there already: the
    /// first image seen under a hash stays. Returns whether `art` was stored.
    pub fn insert_if_absent(&mut self, id: String, art: Artwork) -> (stored: bool)
        requires
            old(self).wf(),
        ensures
            final(self).wf(),
            stored == !old(self)@.dom().contains(id@),
            final(self)@ == if stored {
                old(self)@.insert(id@, art@)
            } else {
                old(self)@
            },
            final(self).count() == old(self).count() + if stored { 1nat } else { 0nat },
            forall|i: int| 0 <= i < old(self).count() ==> final(self).key_at(i) == old(self).key_at(i)
                && final(self).item_at(i) == old(self).item_at(i),
            stored ==> final(self).key_at(old(self).count() as int) == id@ && final(self).item_at(
                old(self).count() as int,
            ) == art@,
    {
        proof {
            self.keys.lemma_slots();
        }
        match self.keys.find(id.as_str()) {
            Some(_) => false,
            None => {
                let ghost before = self@;
                let ghost key = id@;
                let ghost value = art@;
                self.keys.add(id);
                self.items.push(art);
                proof {
                    self.keys.lemma_slots();
                    assert(self@ =~= before.insert(key, value));
                }
                true
            },
        }
    }
}

} // verus!
