# foyer-storage

The storage core of a disk cache, verified with Verus.

Entries are appended to fixed-size regions of a device, each in a slot of whole
blocks: value, key, padding, footer. A full region is closed by a region
footer. An index in memory maps each key to its entry, and is rebuilt from the
footers of the closed regions when the store is opened.

- `src/` is the verified library. It works on plain values and byte slices;
  operations that need the device are sequences of steps that return what has
  to be done outside and take the outcome.
  - `buf`, `checksum`: calls into the `bytes` and `twox-hash` crates
  - `bits`: rounding to blocks
  - `code`: keys and values as bytes
  - `footer`, `entry`: the byte format
  - `indices`: the index
  - `region_iter`, `recovery`: the walk over a closed region and the recovery
    of its entries
  - `region_log`: what a region holds as a whole, and the laws of recovery
  - `device_recovery`: the recovery of all regions at the same time, and its
    laws
  - `admission`, `config`, `store`: the store and its laws
- `tests/` runs the library on regions in memory.
- `app/` is the asynchronous store around the library.
