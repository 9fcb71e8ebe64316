//! The country database, read with the `maxminddb` crate.

use maxminddb::Reader;
use vstd::prelude::*;

use crate::geo::CountryRecord;
use crate::ip::Ip;
use crate::maps::entry;

verus! {

/// A database of countries: a `maxminddb::Reader` of bytes. The reader's type has a bound that the
/// verifier does not take, so it stands in a struct that only the functions below look into.
#[verifier::external_body]
pub struct CountryDb {
    reader: Reader<Vec<u8>>,
}

/// What a record says of an address: its ISO code and its English name, each where there is one.
pub struct RecordView {
    pub iso_code: Option<Seq<char>>,
    pub name: Option<Seq<char>>,
}

/// The records of a database, by the columns of the addresses.
pub uninterp spec fn records(db: CountryDb) -> Map<(u8, u64, u64), RecordView>;

/// What `Reader::from_source` reads from bytes: the records of a database, or nothing.
pub uninterp spec fn records_read(bytes: Seq<u8>) -> Option<Map<(u8, u64, u64), RecordView>>;

/// `Reader::from_source` of a vector of bytes.
#[verifier::external_body]
pub(crate) fn open_database(bytes: Vec<u8>) -> (r: Option<CountryDb>)
    ensures
        match r {
            Some(db) => records_read(bytes@) == Some(records(db)),
            None => records_read(bytes@) is None,
        },
{
    let reader = Reader::from_source(bytes).ok()?;
    Some(CountryDb { reader })
}

/// A record by its values, where there is one.
pub open spec fn opt_record(r: Option<CountryRecord>) -> Option<RecordView> {
    match r {
        Some(rec) => Some(rec@),
        None => None,
    }
}

/// `Reader::lookup` and `LookupResult::decode`: the record of an address, where the database has
/// one that is a country's.
#[verifier::external_body]
pub(crate) fn find_record(db: &CountryDb, ip: Ip) -> (r: Option<CountryRecord>)
    ensures
        opt_record(r) == entry(records(*db), ip.key()),
{
    let found = match ip {
        Ip::V4(n) => db.reader.lookup(n.to_be_bytes().into()),
        Ip::V6(n) => db.reader.lookup(n.to_be_bytes().into()),
    };
    let record: maxminddb::geoip2::Country = found.ok()?.decode().ok()??;
    Some(CountryRecord {
        iso_code: record.country.iso_code.map(String::from),
        name: record.country.names.english.map(String::from),
    })
}

} // verus!
