//! IP enrichment: IP → coordinates, coordinates → place, IP → threat
//! intelligence, IP → autonomous system, over four compact binary databases.

pub mod asndb;
pub mod countries;
pub mod db;
pub mod geocoder;
pub mod intel;
pub mod ip_geo;
pub mod provider;
pub mod schedule;
pub mod search;
pub mod text;
pub mod wire;

pub use asndb::{AsnInfo, Asndb};
pub use ip_geo::IpGeo;

use vstd::prelude::*;

verus! {

/// An IP address as the number it spells: 32 bits for IPv4, 128 for IPv6.
#[derive(Clone, Copy, Debug, PartialEq, Eq, Structural)]
pub enum IpAddress {
    V4(u32),
    V6(u128),
}

/// Why a database blob was rejected.
#[derive(Clone, Copy, Debug, PartialEq, Eq, Structural)]
pub enum DbError {
    /// The IP2X `geo.bin` header is short or its magic is wrong.
    BadIpGeo,
    /// The ASN blob is shorter than its header.
    AsndbTooSmall,
    /// The ASN blob does not start with the ASNDB magic.
    BadAsndbMagic,
    /// The ASN blob is another flavor than the tiny one; the flavor found.
    WrongAsndbFlavor(u8),
    /// The genom `geo.bin` header is short or its magic is wrong.
    BadGeocoder,
    /// The `intel.bin` header is short or its version is not 6.
    BadIntel,
}

} // verus!
