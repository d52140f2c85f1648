# torrentoxide_core

The logic of TorrentOxide, a self-hosted web BitTorrent client with a
Sonarr/Radarr-style PVR, written in Verus: every function in `src/` has a
contract that Verus proves, and the properties the client relies on are stated
as proof functions named `law_*`.

- `src/` — the verified library. Outside crates (`regex`,
  `torrent-name-parser`, `quick-xml`) and the few std functions vstd does not
  specify are reached through small trusted wrappers in `src/ext.rs` and
  `src/text.rs`; their contracts name what those calls compute.
- `tests/` — executable tests of the library, run with the real outside crates.
- `app/` — the server around it: environment, redb storage, HTTP routes
  (axum), TMDb and Torznab requests (reqwest), the library scan (walkdir) and
  log capture (tracing). It only moves values in and out of the library.

Verify with Verus on `src/lib.rs`; the tests are ordinary `#[test]` functions.
