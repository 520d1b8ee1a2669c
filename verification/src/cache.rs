//! A bounded store of results that have been computed before.

use crate::token_map::{entries, get, insert, new_map, TokenMap};
use vstd::prelude::*;
use vstd::rwlock::{RwLock, RwLockPredicate};

verus! {

/// How many results a new cache holds at most.
pub const DEFAULT_CACHE_CAPACITY: usize = 10_000;

/// Texts of this length in bytes, and longer ones, are not stored.
pub const MAX_LENGTH: usize = 256;

/// The texts of a list of strings.
pub open spec fn texts_of(strings: Seq<String>) -> Seq<Seq<char>> {
    strings.map_values(|string: String| string@)
}

/// Copies a list of strings.
pub fn copy_strings(strings: &Vec<String>) -> (copy: Vec<String>)
    ensures
        texts_of(copy@) == texts_of(strings@),
{
    let mut copy: Vec<String> = Vec::new();
    let mut i: usize = 0;
    while i < strings.len()
        invariant
            i <= strings@.len(),
            copy@.len() == i,
            forall|j: int| 0 <= j < i ==> (#[trigger] copy@[j])@ == strings@[j]@,
        decreases strings.len() - i,
    {
        copy.push(strings[i].clone());
        i = i + 1;
    }
    assert(texts_of(copy@) =~= texts_of(strings@));
    copy
}

/// Results by text: the map gives the place of a text's result in the list.
pub struct Store {
    places: TokenMap,
    results: Vec<Vec<String>>,
}

/// What may be stored: pairs of a text and its result. And what has to be: a result for each
/// text that is kept. And how many results there are at most.
pub struct Allowed {
    pub pairs: Set<(Seq<char>, Seq<Seq<char>>)>,
    pub kept: Set<Seq<char>>,
    pub most: nat,
}

impl Store {
    pub closed spec fn wf(&self) -> bool {
        forall|text: Seq<char>|
            entries(self.places).contains_key(text) ==> (#[trigger] entries(self.places)[text])
                < self.results@.len()
    }

    /// The result that is stored for a text.
    pub closed spec fn result(&self, text: Seq<char>) -> Option<Seq<Seq<char>>> {
        if entries(self.places).contains_key(text) {
            Some(texts_of(self.results@[entries(self.places)[text] as int]@))
        } else {
            None
        }
    }

    /// The texts that have a result.
    pub open spec fn texts(&self) -> Set<Seq<char>> {
        Set::new(|text: Seq<char>| self.result(text) is Some)
    }

    /// How many results have been stored.
    pub closed spec fn count(&self) -> nat {
        self.results@.len()
    }

    /// Where nothing has been stored, no text has a result.
    proof fn lemma_count(&self, text: Seq<char>)
        requires
            self.wf(),
        ensures
            self.count() == 0 ==> self.result(text) is None,
    {
        if entries(self.places).contains_key(text) {
            assert(entries(self.places)[text] < self.results@.len());
        }
    }

    /// A store without results.
    pub fn new() -> (store: Store)
        ensures
            store.wf(),
            store.count() == 0,
            forall|text: Seq<char>| (#[trigger] store.result(text)) is None,
    {
        Store { places: new_map(), results: Vec::new() }
    }

    /// The result that is stored for a text, if there is one.
    pub fn find(&self, text: &str) -> (found: Option<Vec<String>>)
        requires
            self.wf(),
        ensures
            match found {
                Some(result) => self.result(text@) == Some(texts_of(result@)),
                None => self.result(text@) is None,
            },
    {
        match get(&self.places, text) {
            Some(place) => {
                assert(entries(self.places)[text@] < self.results@.len());
                Some(copy_strings(&self.results[place as usize]))
            },
            None => None,
        }
    }

    /// Stores a result, unless as many as `capacity`, or as can be numbered, have been stored.
    pub fn add(&mut self, text: &str, result: &Vec<String>, capacity: usize)
        requires
            old(self).wf(),
        ensures
            final(self).wf(),
            old(self).count() < capacity && old(self).count() < u32::MAX ==> {
                &&& final(self).count() == old(self).count() + 1
                &&& final(self).result(text@) == Some(texts_of(result@))
                &&& forall|key: Seq<char>|
                    key != text@ ==> #[trigger] final(self).result(key) == old(self).result(key)
            },
            old(self).count() >= capacity || old(self).count() >= u32::MAX ==> *final(self)
                == *old(self),
    {
        let place: usize = self.results.len();
        if place < capacity && place < u32::MAX as usize {
            insert(&mut self.places, text.to_owned(), place as u32);
            self.results.push(copy_strings(result));
            proof {
                assert forall|key: Seq<char>| key != text@ implies #[trigger] self.result(key)
                    == old(self).result(key) by {
                    if entries(old(self).places).contains_key(key) {
                        assert(entries(old(self).places)[key] < old(self).results@.len());
                    }
                }
            }
        }
    }
}

impl RwLockPredicate<Store> for Allowed {
    open spec fn inv(self, store: Store) -> bool {
        &&& store.wf()
        &&& forall|text: Seq<char>|
            store.result(text) is Some ==> self.pairs.contains(
                (text, #[trigger] store.result(text)->0),
            )
        &&& forall|text: Seq<char>| #[trigger]
            self.kept.contains(text) ==> store.result(text) is Some
        &&& store.count() <= self.most
    }
}

/// A cache that can be read and filled through a shared reference.
pub struct Cache {
    store: RwLock<Store, Allowed>,
    capacity: usize,
}

impl Cache {
    /// The pairs of text and result that the cache may hold.
    pub closed spec fn allowed(&self) -> Set<(Seq<char>, Seq<Seq<char>>)> {
        self.store.pred().pairs
    }

    /// The texts whose results were there when the cache was made. They stay.
    pub closed spec fn kept(&self) -> Set<Seq<char>> {
        self.store.pred().kept
    }

    /// How many results there have ever been at most: as many as the cache began with, or as many
    /// as it could ever hold.
    pub closed spec fn most(&self) -> nat {
        self.store.pred().most
    }

    /// The cache never held less than it holds now.
    #[verifier::type_invariant]
    spec fn inv(&self) -> bool {
        self.capacity <= self.store.pred().most
    }

    /// How many results the cache holds at most.
    pub closed spec fn limit(&self) -> usize {
        self.capacity
    }

    /// An empty cache.
    pub fn new(capacity: usize, Ghost(pairs): Ghost<Set<(Seq<char>, Seq<Seq<char>>)>>) -> (cache:
        Cache)
        ensures
            cache.allowed() == pairs,
            cache.kept() == Set::<Seq<char>>::empty(),
            cache.limit() == capacity,
            cache.most() == capacity,
    {
        let store: Store = Store::new();
        assert(store.texts() =~= Set::<Seq<char>>::empty());
        Cache::holding(store, capacity, Ghost(pairs))
    }

    /// A cache that begins with the results of a store.
    pub fn holding(
        store: Store,
        capacity: usize,
        Ghost(pairs): Ghost<Set<(Seq<char>, Seq<Seq<char>>)>>,
    ) -> (cache: Cache)
        requires
            store.wf(),
            forall|text: Seq<char>|
                store.result(text) is Some ==> pairs.contains(
                    (text, #[trigger] store.result(text)->0),
                ),
        ensures
            cache.allowed() == pairs,
            cache.kept() == store.texts(),
            cache.limit() == capacity,
            cache.most() == (if store.count() < capacity {
                capacity as nat
            } else {
                store.count()
            }),
    {
        let ghost kept = store.texts();
        let ghost most = if store.count() < capacity {
            capacity as nat
        } else {
            store.count()
        };
        Cache { store: RwLock::new(store, Ghost(Allowed { pairs, kept, most })), capacity }
    }

    /// How many results the cache holds at most.
    pub fn capacity(&self) -> (capacity: usize)
        ensures
            capacity == self.limit(),
    {
        self.capacity
    }

    /// What the store gives for the text when it is read. Of a text that the cache did not begin
    /// with, a result is there only if some holder of the cache has stored one since.
    pub fn get(&self, text: &str) -> (found: Option<Vec<String>>)
        ensures
            self.kept().contains(text@) ==> found is Some,
            self.most() == 0 ==> found is None,
            found is Some ==> self.allowed().contains((text@, texts_of(found->0@))),
    {
        let handle = self.store.acquire_read();
        let store = handle.borrow();
        let found: Option<Vec<String>> = store.find(text);
        proof {
            store.lemma_count(text@);
        }
        handle.release_read();
        found
    }

    /// Stores a result, unless the cache is full.
    pub fn set(&self, text: &str, result: &Vec<String>)
        requires
            self.allowed().contains((text@, texts_of(result@))),
    {
        proof {
            use_type_invariant(self);
        }
        let (mut store, handle) = self.store.acquire_write();
        let ghost before = store;
        store.add(text, result, self.capacity);
        proof {
            assert forall|key: Seq<char>| store.result(key) is Some implies self.allowed().contains(
                (key, #[trigger] store.result(key)->0),
            ) by {
                if key != text@ {
                    assert(store.result(key) == before.result(key));
                    assert(before.result(key) is Some);
                }
            }
        }
        handle.release_write(store);
    }

    /// An empty cache that holds as many results at most.
    pub fn fresh(&self, Ghost(pairs): Ghost<Set<(Seq<char>, Seq<Seq<char>>)>>) -> (cache: Cache)
        ensures
            cache.allowed() == pairs,
            cache.kept() == Set::<Seq<char>>::empty(),
            cache.limit() == self.limit(),
            cache.most() == self.limit(),
    {
        Cache::new(self.capacity, Ghost(pairs))
    }

    /// Drops all results. What the cache may hold from then on is free to choose.
    pub fn clear(&mut self, Ghost(pairs): Ghost<Set<(Seq<char>, Seq<Seq<char>>)>>)
        ensures
            final(self).allowed() == pairs,
            final(self).kept() == Set::<Seq<char>>::empty(),
            final(self).limit() == old(self).limit(),
            final(self).most() == old(self).limit(),
    {
        *self = self.fresh(Ghost(pairs));
    }

    /// Changes how many results the cache holds at most. All results stay.
    pub fn resize(&mut self, capacity: usize)
        ensures
            final(self).allowed() == old(self).allowed(),
            final(self).kept() == old(self).kept(),
            final(self).limit() == capacity,
            final(self).most() == (if old(self).most() < capacity {
                capacity as nat
            } else {
                old(self).most()
            }),
    {
        let mut taken: Cache = self.fresh(Ghost(self.allowed()));
        core::mem::swap(self, &mut taken);
        let ghost before = taken.store.pred();
        let ghost most = if before.most < capacity {
            capacity as nat
        } else {
            before.most
        };
        let store: Store = taken.store.into_inner();
        *self = Cache {
            store: RwLock::new(
                store,
                Ghost(Allowed { pairs: before.pairs, kept: before.kept, most }),
            ),
            capacity,
        };
    }

    /// Lets the cache hold more pairs. All results stay.
    pub fn widen(&mut self, Ghost(pairs): Ghost<Set<(Seq<char>, Seq<Seq<char>>)>>)
        requires
            old(self).allowed().subset_of(pairs),
        ensures
            final(self).allowed() == pairs,
            old(self).kept().subset_of(final(self).kept()),
            final(self).limit() == old(self).limit(),
            final(self).most() <= old(self).most(),
    {
        let mut taken: Cache = self.fresh(Ghost(self.allowed()));
        core::mem::swap(self, &mut taken);
        proof {
            use_type_invariant(&taken);
        }
        let capacity: usize = taken.capacity;
        let store: Store = taken.store.into_inner();
        *self = Cache::holding(store, capacity, Ghost(pairs));
    }
}

} // verus!
