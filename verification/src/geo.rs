//! Countries of addresses, with a cache in front of the country database.

use std::sync::Arc;

use vstd::prelude::*;
use vstd::string::*;

use crate::config::opt_text;
use crate::ip::Ip;
use crate::maps::{
    countries, countries_get, countries_new, countries_put, entry, opt_texts, texts, CountryMap,
};
use crate::mmdb::{
    find_record, open_database, opt_record, records, records_read, CountryDb, RecordView,
};

verus! {

/// What the country database says of an address: its ISO code and its English name, each where
/// there is one.
#[derive(Debug)]
pub struct CountryRecord {
    pub iso_code: Option<String>,
    pub name: Option<String>,
}

impl CountryRecord {
    pub open spec fn view(&self) -> RecordView {
        RecordView { iso_code: opt_text(self.iso_code), name: opt_text(self.name) }
    }
}

/// The code and name of a country that is not known.
pub open spec fn unknown_country() -> (Seq<char>, Seq<char>) {
    ("--"@, "Unknown"@)
}

/// The code and name that a record gives; the unknown ones where it gives none.
pub open spec fn country_of(record: Option<RecordView>) -> (Seq<char>, Seq<char>) {
    match record {
        Some(r) => (
            match r.iso_code {
                Some(c) => c,
                None => unknown_country().0,
            },
            match r.name {
                Some(n) => n,
                None => unknown_country().1,
            },
        ),
        None => unknown_country(),
    }
}

/// The code and name of a country that is not known.
pub fn unknown() -> (r: (Arc<String>, Arc<String>))
    ensures
        texts(r) == unknown_country(),
{
    (Arc::new("--".to_owned()), Arc::new("Unknown".to_owned()))
}

/// The code and name that a record gives.
pub fn resolve(record: Option<CountryRecord>) -> (r: (Arc<String>, Arc<String>))
    ensures
        texts(r) == country_of(opt_record(record)),
{
    match record {
        Some(rec) => {
            let code = match rec.iso_code {
                Some(c) => c,
                None => "--".to_owned(),
            };
            let name = match rec.name {
                Some(n) => n,
                None => "Unknown".to_owned(),
            };
            (Arc::new(code), Arc::new(name))
        },
        None => unknown(),
    }
}

/// The country database, where there is one, and the countries that were looked up before.
pub struct Geo {
    pub db: Option<CountryDb>,
    /// Whether there were bytes that are no database.
    pub db_unavailable: bool,
    pub mem_cache: CountryMap,
}

/// The country that a database gives for an address: the unknown one where it has no record.
pub open spec fn country_in(
    db: Map<(u8, u64, u64), RecordView>,
    key: (u8, u64, u64),
) -> (Seq<char>, Seq<char>) {
    country_of(entry(db, key))
}

/// Every cached country is the one that the database gives.
pub open spec fn cache_agrees(
    cache: Map<(u8, u64, u64), (Seq<char>, Seq<char>)>,
    db: Map<(u8, u64, u64), RecordView>,
) -> bool {
    forall|k: (u8, u64, u64)| #[trigger]
        cache.dom().contains(k) ==> cache[k] == country_in(db, k)
}

/// The records in the bytes of a database; none where there are no bytes, or where they are no
/// database.
pub open spec fn records_in(bytes: Option<Seq<u8>>) -> Map<(u8, u64, u64), RecordView> {
    match bytes {
        Some(b) => match records_read(b) {
            Some(m) => m,
            None => Map::empty(),
        },
        None => Map::empty(),
    }
}

/// Bytes by what they hold, where there are any.
pub open spec fn opt_bytes(b: Option<Vec<u8>>) -> Option<Seq<u8>> {
    match b {
        Some(v) => Some(v@),
        None => None,
    }
}

impl Geo {
    /// The cached countries by address columns.
    pub open spec fn view(&self) -> Map<(u8, u64, u64), (Seq<char>, Seq<char>)> {
        countries(self.mem_cache)
    }

    /// The records of the database.
    pub open spec fn database(&self) -> Map<(u8, u64, u64), RecordView> {
        match self.db {
            Some(db) => records(db),
            None => Map::empty(),
        }
    }

    /// The cache says what the database says.
    pub open spec fn wf(&self) -> bool {
        cache_agrees(self@, self.database())
    }

    /// Countries from the bytes of a database. Without bytes, or where they are no database, no
    /// country is known.
    pub fn new(database: Option<Vec<u8>>) -> (r: Geo)
        ensures
            r.wf(),
            r@ == Map::<(u8, u64, u64), (Seq<char>, Seq<char>)>::empty(),
            r.database() == records_in(opt_bytes(database)),
            r.db_unavailable == (database is Some && records_read(database->0@) is None),
    {
        let given = database.is_some();
        let db = match database {
            Some(bytes) => open_database(bytes),
            None => None,
        };
        let db_unavailable = given && db.is_none();
        let r = Geo { db, db_unavailable, mem_cache: countries_new() };
        assert(r@ =~= Map::<(u8, u64, u64), (Seq<char>, Seq<char>)>::empty());
        r
    }

    /// The country code and name of an address: those that the database gives, whether or not the
    /// cache held them before. The cache keeps them.
    pub fn lookup(&mut self, ip: Ip) -> (r: (Arc<String>, Arc<String>))
        requires
            old(self).wf(),
        ensures
            final(self).wf(),
            texts(r) == country_in(old(self).database(), ip.key()),
            final(self)@ == old(self)@.insert(ip.key(), texts(r)),
            final(self).database() == old(self).database(),
            final(self).db_unavailable == old(self).db_unavailable,
    {
        let key: (u8, u64, u64) = (ip.kind(), ip.hi(), ip.lo());
        match countries_get(&self.mem_cache, key) {
            Some(found) => {
                assert(opt_texts(Some(found)) == entry(self@, ip.key()));
                assert(self@ =~= old(self)@.insert(ip.key(), texts(found)));
                found
            },
            None => {
                let record = match &self.db {
                    Some(db) => find_record(db, ip),
                    None => None,
                };
                let result = resolve(record);
                countries_put(&mut self.mem_cache, key, (result.0.clone(), result.1.clone()));
                result
            },
        }
    }
}

} // verus!
