# moka concurrency shims, verified

The state behind moka's shuttle-aware concurrency shims, written in Verus
with contracts and laws:

- `src/channel.rs`: the shared state of a bounded channel (`ChannelInner`),
  its abstract model `ChannelState`, one verified step per channel
  operation, and the channel's laws (first in, first out; the capacity
  bound of `try_send`; a closed receiver refuses every send; errors of
  `try_recv`; clone and drop of a sender; the queue length over any history
  of calls).
- `src/shuttle_map.rs`: the hash map keyed by precomputed hashes, with one
  bucket of `(key, value)` entries per hash, modelled as a map from hash to
  the sequence of its bucket's entries.
- `src/map_laws.rs`: the map's laws (a stored value is found; adding only
  where absent never replaces, and adding twice changes nothing; keys stay
  distinct within a bucket, and across the map where hashes come from the
  keys; the count of entries).

`app/` holds what locks, re-exports or hashes: the channel behind
`shuttle::sync::Mutex`, crossbeam-channel's channel for normal builds, the
map behind the shuttle-aware `parking_lot` RwLock (package shuttle-parking_lot),
and the atomic type re-exports.
