# Posixfy Bridge

A file service that performs filesystem operations on behalf of Unix users
(switching the filesystem uid/gid per request), with advisory locks,
optimistic concurrency checks, byte ranges, paginated listings and change
notifications.

The decisions of the service are a Verus library under `src/`:

- `models::mount` — parsing of the `name:/path,...` mount configuration.
- `fs::path` — the path model (components, join, parent, file name) and the
  resolution of user paths within a mount, proved to stay inside it.
- `fs::lock` — read/write locks with expiry over a `DashMap`, with the
  exclusion laws.
- `fs::watcher` — the events between two directory snapshots and the
  subscriber counts of watched directories.
- `fs::operations` — the order of listings and the delete decision.
- `api::fs` — byte ranges, upload names, pagination, concurrency checks and
  download replies.
- `auth::middleware`, `config`, `error` — API key and identity headers,
  configuration, error statuses and messages.
- `text` — the character-level parsing and printing these rest on.

`app/` is the HTTP server around it (axum, tokio, the filesystem calls and
the identity switching).
