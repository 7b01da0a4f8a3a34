//! The key-value state machine that committed log entries are applied to.

use vstd::hash_map::StringHashMap;
use vstd::prelude::*;

verus! {

/// Why a store operation was refused.
#[derive(Clone, Copy, Debug, PartialEq, Eq, Structural)]
pub enum Error {
    /// The key is not in the store.
    DoesNotExist,
    /// The key is already in the store.
    Exists,
}

/// A map from string keys to string values.
pub struct Store {
    data: StringHashMap<String>,
}

impl View for Store {
    type V = Map<Seq<char>, Seq<char>>;

    /// The contents of the store: each key with the characters of its value.
    closed spec fn view(&self) -> Map<Seq<char>, Seq<char>> {
        self.data@.map_values(|v: String| v@)
    }
}

impl Store {
    /// An empty store.
    pub fn new() -> (store: Self)
        ensures
            store@ == Map::<Seq<char>, Seq<char>>::empty(),
    {
        let store = Self { data: StringHashMap::new() };
        assert(store@ =~= Map::<Seq<char>, Seq<char>>::empty());
        store
    }

    /// The value stored under `key`, or `DoesNotExist` when the key is absent.
    pub fn get<'a>(&'a self, key: &str) -> (result: Result<&'a str, Error>)
        ensures
            match result {
                Ok(value) => self@.contains_key(key@) && value@ == self@[key@],
                Err(e) => !self@.contains_key(key@) && e == Error::DoesNotExist,
            },
    {
        match self.data.get(key) {
            Some(value) => Ok(value.as_str()),
            None => Err(Error::DoesNotExist),
        }
    }

    /// Stores `value` under a key that is not yet present; refuses with
    /// `Exists`, changing nothing, when the key is present.
    pub fn insert(&mut self, key: String, value: String) -> (result: Result<(), Error>)
        ensures
            old(self)@.contains_key(key@) ==> {
                &&& result == Err::<(), Error>(Error::Exists)
                &&& final(self)@ == old(self)@
            },
            !old(self)@.contains_key(key@) ==> {
                &&& result.is_ok()
                &&& final(self)@ == old(self)@.insert(key@, value@)
            },
    {
        if self.data.contains_key(key.as_str()) {
            return Err(Error::Exists);
        }
        self.data.insert(key, value);
        assert(self@ =~= old(self)@.insert(key@, value@));
        Ok(())
    }

    /// Overwrites the value of a key that is present; refuses with
    /// `DoesNotExist`, changing nothing, when the key is absent.
    pub fn update(&mut self, key: &str, value: String) -> (result: Result<(), Error>)
        ensures
            !old(self)@.contains_key(key@) ==> {
                &&& result == Err::<(), Error>(Error::DoesNotExist)
                &&& final(self)@ == old(self)@
            },
            old(self)@.contains_key(key@) ==> {
                &&& result.is_ok()
                &&& final(self)@ == old(self)@.insert(key@, value@)
            },
    {
        if !self.data.contains_key(key) {
            return Err(Error::DoesNotExist);
        }
        self.data.insert(key.to_owned(), value);
        assert(self@ =~= old(self)@.insert(key@, value@));
        Ok(())
    }

    /// Deletes a key that is present; refuses with `DoesNotExist`, changing
    /// nothing, when the key is absent.
    pub fn remove(&mut self, key: &str) -> (result: Result<(), Error>)
        ensures
            !old(self)@.contains_key(key@) ==> {
                &&& result == Err::<(), Error>(Error::DoesNotExist)
                &&& final(self)@ == old(self)@
            },
            old(self)@.contains_key(key@) ==> {
                &&& result.is_ok()
                &&& final(self)@ == old(self)@.remove(key@)
            },
    {
        if !self.data.contains_key(key) {
            return Err(Error::DoesNotExist);
        }
        self.data.remove(key);
        assert(self@ =~= old(self)@.remove(key@));
        Ok(())
    }
}

/// The HTTP status code and message with which a refused store operation is
/// reported to a client: 409 for a key that exists, 404 for one that does not.
pub fn handle_kv_error(err: Error) -> (response: (u16, String))
    ensures
        response.0 == match err {
            Error::Exists => 409u16,
            Error::DoesNotExist => 404u16,
        },
        response.1@ == match err {
            Error::Exists => "key exists"@,
            Error::DoesNotExist => "key does not exist"@,
        },
{
    match err {
        Error::Exists => (409, "key exists".to_owned()),
        Error::DoesNotExist => (404, "key does not exist".to_owned()),
    }
}

} // verus!
