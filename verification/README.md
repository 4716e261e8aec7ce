# openhp1_runtime

The verified core of the OpenHP1 script runtime, written in Verus.

## Layout

- `src/` — the library, every function with a contract proved by Verus:
  - `kinematics` — rotator turning and pitch clamping in Unreal rotation units.
  - `native`, `scalar` — argument decoding and the integer, boolean and
    string natives of the script interpreter; natives that compute in single
    precision are handed back to the host.
  - `navigation` — the shortest-first search over reach specs that picks the
    next navigation point; its result starts a shortest usable way.
  - `state` — events disabled per actor and state, ignoring ASCII case.
  - `order` — stable insertion sorting used to put snapshots in a canonical
    order.
  - `save` — the snapshot byte format: writer, reader, and the proof that a
    written snapshot reads back.
  - `world` — the runtime tables a snapshot captures, taking a snapshot,
    deciding how a snapshot restores onto the registered actors, writing it
    back into the tables, naming the animations and state code a restore
    replays, the sound channels, and the bookkeeping of spawning and
    destroying actors. A save restores onto any runtime that registers the
    same authored actors; the laws in `world::roundtrip` state what comes
    back, for saves whose objects are in the form the reader gives back
    (lower-case package names without separators), the stems of package
    paths that depend on the platform being the same on both sides.
    `world::resolved` and `world::finish` convert the saved values with the
    objects the host resolved for them and write the fields, objects and
    state code of a restore (`ScriptRuntime::finish_restore`).
- `tests/` — tests of the library on concrete values.
- `app/` — host-side code the library cannot hold: the single-precision
  arithmetic of the natives; helpers of the gesture, motion and sound code
  that compute in single precision; and `restore.rs`, which resolves the
  saved objects of a restore plan against the loaded packages (with their
  script handles) and hands the table of them to `finish_restore`. The physics ticks themselves, and
  the package lookups around spawning and destroying actors, are not part
  of this crate.
