# ipsight

IP enrichment with geo, threat and ASN data over four compact binary
databases, with contracts and proofs checked by Verus.

- IP → `(lat, lon)`: `IpGeo` (IP2X `geo.bin`)
- `(lat, lon)` → `Place`: `Geocoder` (genom `geo.bin`)
- IP → threat report: `Intel` (IPBlocklist `intel.bin`)
- IP → AS and brand: `Asndb` (ASNDB `asndb-tiny.bin`)

## Layout

- `src/` is the verified library. Each parser states, as a spec function
  over the blob's bytes, what it reads and exactly when it refuses a blob;
  each lookup states its answer over that model. The laws of the library
  (a lookup reports exactly the ranges that hold the address, the city
  kept is a nearest one, a report's counts and orders, and so on) are
  public proof functions beside the code they are about.
  - `wire`: little- and big-endian integers, varints, zigzag.
  - `search`: partition points over ascending tables, and the stable sort.
  - `text`: character helpers and the UTF-8 conversions.
  - `provider`: the brand cleanup of AS names and companies.
  - `ip_geo`, `asndb`, `geocoder`, `intel`: the four databases.
  - `countries`: country and continent facts, UTC offsets, places.
  - `schedule`: refresh timing and what a conditional fetch's reply means.
  - `db`: the `Database` trait the four databases implement.
- `app/` is the rest: downloads, the on-disk cache, the background
  refresh, the floating-point parts (degrees, calibrated flag weights,
  scores, verdicts) and the `lookup` command.
- `tests/` exercises the library on small hand-built blobs.
