# murmur

A verified library for Murmur, a peer-to-peer file sync network whose
devices share a signed, hash-chained DAG of actions.

`src/` is written in Verus: its functions are proved against their
contracts, and its laws (what several operations together keep) are proof
functions that Verus checks.

- `dag`, `topo`, `entry`, `state`, `clock`: the DAG of signed entries, its
  tips, syncing (delta computation and batch application in topological
  order), the state the entries materialize (devices, files, grants, with
  last-writer-wins names) and the hybrid logical clock.
- `codec`, `types`, `message`: the byte encodings of actions, entries and
  peer messages, with proofs that decoding gives back what was encoded;
  length-prefixed framing; handling of a gossip payload.
- `wire`: the compression flag in front of gossip payloads and the
  reassembly of chunked blobs.
- `pairing`: signed, encrypted invitations carried in `murmur://join` URLs.
- `templates`, `config`, `display`, `text`, `engine`: folder templates,
  configuration paths and role checks, device ids in hex, display helpers
  and errors.
- `app_flow`, `launch`, `folder_view`, `screen_lists`: the desktop app's
  flow (daemon start, setup wizard, screens, requests to the daemon and
  what its replies change), the decisions while starting the daemon, the
  searched, sorted file list of a folder, and what the conflict and device
  screens pick out of the daemon's lists.
- `base64url`: URL-safe base64 as a specification, with its round trip.
- `primitives`: the calls into blake3, ed25519-dalek, hkdf, aes-gcm,
  data-encoding, flate2, rand, similar and std, each with the contract it is
  trusted to meet.

`app/` holds what stays outside the verifier: the configuration file in
TOML (serde copies of the configuration records), the process and socket
work of starting the daemon, and byte sizes shown with a decimal fraction.
