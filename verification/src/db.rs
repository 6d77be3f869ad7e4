//! The in-memory store: text keys mapped to text values.
use vstd::hash_map::StringHashMap;
use vstd::prelude::*;

verus! {

/// A map from keys to values, both text.
pub struct Db {
    store: StringHashMap<String>,
}

impl View for Db {
    type V = Map<Seq<char>, Seq<char>>;

    closed spec fn view(&self) -> Map<Seq<char>, Seq<char>> {
        self.store@.map_values(|v: String| v@)
    }
}

impl Db {
    /// An empty store.
    pub fn new() -> (db: Self)
        ensures
            db@ == Map::<Seq<char>, Seq<char>>::empty(),
    {
        let db = Db { store: StringHashMap::new() };
        assert(db@ =~= Map::<Seq<char>, Seq<char>>::empty());
        db
    }

    /// A copy of the value stored under `key`, if there is one.
    pub fn get(&self, key: &str) -> (res: Option<String>)
        ensures
            match res {
                Some(v) => self@.contains_key(key@) && v@ == self@[key@],
                None => !self@.contains_key(key@),
            },
    {
        match self.store.get(key) {
            Some(v) => Some(v.clone()),
            None => None,
        }
    }

    /// Stores `value` under `key`, replacing what was there.
    pub fn set(&mut self, key: String, value: String)
        ensures
            final(self)@ == old(self)@.insert(key@, value@),
    {
        self.store.insert(key, value);
        assert(self@ =~= old(self)@.insert(key@, value@));
    }

    /// Removes `key`; says whether it was there.
    pub fn del(&mut self, key: &str) -> (removed: bool)
        ensures
            removed == old(self)@.contains_key(key@),
            final(self)@ == old(self)@.remove(key@),
    {
        let present = self.store.contains_key(key);
        self.store.remove(key);
        assert(self@ =~= old(self)@.remove(key@));
        present
    }
}

/// Reading after writing: after `set(key, value)` a `get` of `key` gives `value`
/// and leaves every other key as it was; after `del(key)` a `get` of `key` gives
/// nothing, and a second `del` of it reports that nothing was removed.
pub proof fn law_read_after_write(
    db: Map<Seq<char>, Seq<char>>,
    key: Seq<char>,
    value: Seq<char>,
    other: Seq<char>,
)
    requires
        other != key,
    ensures
        db.insert(key, value).contains_key(key),
        db.insert(key, value)[key] == value,
        db.insert(key, value).contains_key(other) == db.contains_key(other),
        db.contains_key(other) ==> db.insert(key, value)[other] == db[other],
        !db.remove(key).contains_key(key),
        db.remove(key).contains_key(other) == db.contains_key(other),
        db.contains_key(other) ==> db.remove(key)[other] == db[other],
{
}

} // verus!
