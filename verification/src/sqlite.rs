//! The relational backend's verified core: the store handle and the
//! column text of a record.  The caller owns the database connection and
//! moves column values in and out.

use vstd::prelude::*;

use crate::codec::enc_str_array;
use crate::codec::push_str_array;
use crate::item_codec::enc_counters;
use crate::item_codec::enc_expiry;
use crate::item_codec::enc_hints;
use crate::text::chars_to_string;
use crate::types::MemoryItem;

verus! {

/// A relational store of memory items, one table keyed by id; the caller
/// opens a connection to the path around every operation.
pub struct SqliteMemoryStore {
    path: String,
}

impl SqliteMemoryStore {
    /// A handle on the database file at the given path.
    pub fn new(path: String) -> (r: SqliteMemoryStore)
        ensures
            r.path_spec() == path@,
    {
        SqliteMemoryStore { path }
    }

    /// The path the caller gave for the database file.
    pub closed spec fn path_spec(&self) -> Seq<char> {
        self.path@
    }

    /// The path of the database file.
    pub fn path(&self) -> (r: &String)
        ensures
            r@ == self.path_spec(),
    {
        &self.path
    }
}

/// The object-valued column texts of a record: its tags, hints, counters,
/// and expiry, each in the canonical encoding.
pub fn item_json_cols(item: &MemoryItem) -> (r: (String, String, String, Option<String>))
    ensures
        r.0@ == enc_str_array(item@.tags),
        r.1@ == enc_hints(item@.relevance_hints),
        r.2@ == enc_counters(item@.counters),
        match r.3 {
            Some(e) => item@.expiry is Some && e@ == enc_expiry(item@.expiry),
            None => item@.expiry is None,
        },
{
    let mut tags: Vec<char> = Vec::new();
    push_str_array(&mut tags, &item.tags);
    proof {
        assert(Seq::<char>::empty() + enc_str_array(item@.tags) =~= enc_str_array(item@.tags));
    }
    let mut hints: Vec<char> = Vec::new();
    crate::item_codec::push_hints(&mut hints, &item.relevance_hints);
    proof {
        assert(Seq::<char>::empty() + enc_hints(item@.relevance_hints) =~= enc_hints(
            item@.relevance_hints,
        ));
    }
    let mut counters: Vec<char> = Vec::new();
    crate::item_codec::push_counters(&mut counters, &item.counters);
    proof {
        assert(Seq::<char>::empty() + enc_counters(item@.counters) =~= enc_counters(
            item@.counters,
        ));
    }
    let expiry = match &item.expiry {
        Some(_) => {
            let mut e: Vec<char> = Vec::new();
            crate::item_codec::push_expiry(&mut e, &item.expiry);
            proof {
                assert(Seq::<char>::empty() + enc_expiry(item@.expiry) =~= enc_expiry(
                    item@.expiry,
                ));
            }
            Some(chars_to_string(&e))
        },
        None => None,
    };
    (chars_to_string(&tags), chars_to_string(&hints), chars_to_string(&counters), expiry)
}

} // verus!
