# tracker_backend

The verified core of a FastTracker 2-style player's backend for a filesystem
collection of tracker modules laid out as `group/artist/song.ext`.

`src/` is a Verus library. Its functions carry contracts that Verus proves,
except the few that call `sha2`, `hex`, `base64`, `mime_guess` or a std
function: their contracts are believed, and each says in its doc comment
what it claims of the call.

- `scan`: path-derived index fields (group, artist, file name, extension),
  module-extension recognition, junk and hidden-directory filtering, and the
  `Reconciler` that decides, during a scan, which cached hashes are reused,
  what row each file gets, which rows are kept (files or directories that
  could not be read) and which are stale; with the laws that a scan keeps
  the row invariant of the index and that rescanning an unchanged
  collection changes nothing.
- `routes`: rename planning from clean path segments, confinement of file
  access to the collection root, the answers to failed moves, the liveness
  report, and the content type of SPA assets.
- `csp`: the Content-Security-Policy header and the hashes of the SPA's
  inline scripts.
- `digest`: content hashes (SHA-256 via `sha2`, rendered with `hex` and
  `base64`).
- `auth`, `config`, `db`, `error`: the request gate, configuration from the
  environment's values, the SQLite schema, and error statuses.
- `text`: character-level helpers (splitting, trimming, comparing).

`app/` is the server around it: axum routes, the SQLite connection
(rusqlite), the filesystem walk (walkdir) and the boot sequence.
