# geolite_lookup

Offline IPv4 -> country lookup over a compact binary range database
(`geolite.bin`), written in Verus, with the traffic monitor that uses it.

## Layout

- `src/` — the verified library.
  - `models.rs`: `IpRange`, `Header`, format constants.
  - `lookup.rs`: the interval binary search.
  - `codec.rs`: little-endian fields (through `byteorder`).
  - `database.rs`: decoding and validating an image, `GeoDatabase` lookups.
  - `writer.rs`: encoding a country table and ranges into an image.
  - `laws.rs`: reading back what was written; lookups over a written database.
  - `text.rs`, `ipv4.rs`, `cidr.rs`: decimal, dotted-quad and CIDR text.
  - `builder.rs`: the builder's per-row decisions (country resolution,
    deduplicated country table).
  - `monitor.rs`, `cli.rs`: the traffic monitor's record format, per-event
    decisions, command line and configuration.
- `app/` — the programs: file access and memory mapping, CSV reading, the
  lookup command, the monitor's probe loading, ring-buffer loop and SQLite
  log, and the probe build helper.
- `tests/` — tests of the library's public API.

## Binary format

```
HEADER (24 bytes, little-endian)
  magic "GLDB" | version u32 | country_count u32 | range_count u32 | range_table_offset u64
COUNTRY TABLE: country_count entries of  name_len u16 | name_bytes (UTF-8);
               entry 0 is the reserved "Unknown"
RANGE TABLE: range_count records of  start u32 | end u32 | country_index u16  (sorted by start)
```

A `GeoDatabase` borrows the image (in the programs, a memory map of the
file): the country table is decoded once when it is opened, and each lookup
reads range records straight out of the borrowed bytes, parsing the address
text in place.
