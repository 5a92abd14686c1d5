# Ferrox

Ferrox is a small static-file and single-page-application web server. This crate holds
its verified core; `app/` holds the program around it (listeners, the TLS handshake, file
I/O, logging to disk, YAML configuration loading).

Layout of `src/`:

- `config` — configuration types, defaults and the case-insensitive router preset names.
- `http::request` — parsing of a request head into method, path, version and
  lower-cased header fields, with laws on header names and on bytes after the head.
- `http::response` — response builders and the serialized response head, with the law
  that a head whose fields hold no line breaks is exactly one header block.
- `http::error`, `utils::templates` — the error and directory-listing pages.
- `handlers::static_files` — `FileServer`, which decides, one file-system operation at a
  time, how a request path is served (files, `index.html`, listings, SPA fallback,
  redirects, 403/404), with the law that, over a whole exchange, it never touches a path
  outside the serving root.
- `server` — `HeadReader` (incremental detection of the end of a request head), request
  admission (400 for unparsable heads or undecodable paths), the 500 answer when serving
  fails, the HTTPS redirect, and the certificate chain and private key read from the PEM
  files (`tls_material`).
- `utils::logger` — the text of access and error log lines.
- `utils::text` — shared text helpers (UTF-8 decoding, ASCII case folding, replacement,
  decimal rendering).
