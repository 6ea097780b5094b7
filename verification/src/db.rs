//! The databases as one kind: each has a name, the URL it is fetched from,
//! and a parser from raw bytes.

use vstd::prelude::*;

use crate::asndb::{asn_header_ok, asn_parse_defined, Asndb, ASNDB_MAGIC};
use crate::geocoder::{gc_header_ok, gc_parse, gc_parse_defined, Geocoder};
use crate::intel::{intel_defined, intel_header_ok, Intel};
use crate::ip_geo::{geo_header_ok, geo_parse_defined, IpGeo};
use crate::wire::le_at;
use crate::DbError;

verus! {

/// A binary database loadable from raw bytes and fetched from a stable URL.
pub trait Database: Sized {
    /// Stable identifier used as the cache filename.
    const NAME: &'static str;

    /// HTTPS URL serving the latest binary.
    const URL: &'static str;

    /// Whether parsing the blob `b` is defined.
    spec fn parse_ok(b: Seq<u8>) -> bool;

    /// Whether parsing `bytes` is defined.
    fn parse_defined(bytes: &Vec<u8>) -> (r: bool)
        ensures
            r == Self::parse_ok(bytes@),
    ;

    /// Whether `r` is what parsing the blob `b` gives: the error the blob
    /// earns, or the database it holds.
    spec fn parsed(b: Seq<u8>, r: Result<Self, DbError>) -> bool;

    /// Parse a downloaded or cached blob.
    fn parse(bytes: Vec<u8>) -> (r: Result<Self, DbError>)
        requires
            Self::parse_ok(bytes@),
        ensures
            Self::parsed(bytes@, r),
    ;
}

impl Database for IpGeo {
    const NAME: &'static str = "ip2x";

    const URL: &'static str = "https://github.com/tn3w/IP2X/releases/latest/download/geo.bin";

    open spec fn parse_ok(b: Seq<u8>) -> bool {
        geo_parse_defined(b)
    }

    open spec fn parsed(b: Seq<u8>, r: Result<Self, DbError>) -> bool {
        &&& (r is Err <==> !geo_header_ok(b))
        &&& (r matches Err(e) ==> e == DbError::BadIpGeo)
        &&& (r matches Ok(db) ==> db@ == b)
    }

    fn parse_defined(bytes: &Vec<u8>) -> (r: bool) {
        IpGeo::parse_defined(bytes)
    }

    fn parse(bytes: Vec<u8>) -> (r: Result<Self, DbError>) {
        IpGeo::parse(bytes)
    }
}

impl Database for Geocoder {
    const NAME: &'static str = "genom";

    const URL: &'static str = "https://github.com/tn3w/genom/releases/latest/download/geo.bin";

    open spec fn parse_ok(b: Seq<u8>) -> bool {
        gc_parse_defined(b)
    }

    open spec fn parsed(b: Seq<u8>, r: Result<Self, DbError>) -> bool {
        &&& (r is Err <==> !gc_header_ok(b))
        &&& (r matches Err(e) ==> e == DbError::BadGeocoder)
        &&& (r matches Ok(g) ==> g@ == b && g.model() == gc_parse(b)->0)
    }

    fn parse_defined(bytes: &Vec<u8>) -> (r: bool) {
        Geocoder::parse_defined(bytes)
    }

    fn parse(bytes: Vec<u8>) -> (r: Result<Self, DbError>) {
        Geocoder::parse(bytes)
    }
}

impl Database for Intel {
    const NAME: &'static str = "ipblocklist";

    const URL: &'static str = "https://github.com/tn3w/IPBlocklist/releases/latest/download/intel.bin";

    open spec fn parse_ok(b: Seq<u8>) -> bool {
        intel_defined(b)
    }

    open spec fn parsed(b: Seq<u8>, r: Result<Self, DbError>) -> bool {
        &&& (r is Err <==> !intel_header_ok(b))
        &&& (r matches Err(e) ==> e == DbError::BadIntel)
        &&& (r matches Ok(db) ==> db.parsed_from(b))
    }

    fn parse_defined(bytes: &Vec<u8>) -> (r: bool) {
        Intel::parse_defined(bytes)
    }

    fn parse(bytes: Vec<u8>) -> (r: Result<Self, DbError>) {
        Intel::parse(bytes)
    }
}

impl Database for Asndb {
    const NAME: &'static str = "asndb-tiny";

    const URL: &'static str = "https://github.com/tn3w/ASNDB/releases/latest/download/asndb-tiny.bin";

    open spec fn parse_ok(b: Seq<u8>) -> bool {
        asn_parse_defined(b)
    }

    open spec fn parsed(b: Seq<u8>, r: Result<Self, DbError>) -> bool {
        &&& (r matches Err(e) ==> if b.len() < 104 {
            e == DbError::AsndbTooSmall
        } else if le_at(b, 0, 8) != ASNDB_MAGIC {
            e == DbError::BadAsndbMagic
        } else {
            e == DbError::WrongAsndbFlavor(b[8])
        })
        &&& (r is Ok <==> asn_header_ok(b))
        &&& (r matches Ok(db) ==> db@ == b)
    }

    fn parse_defined(bytes: &Vec<u8>) -> (r: bool) {
        Asndb::parse_defined(bytes)
    }

    fn parse(bytes: Vec<u8>) -> (r: Result<Self, DbError>) {
        Asndb::parse(bytes)
    }
}

} // verus!
