# rustbin

A minimalist pastebin and URL shortener. Pastes are uploaded with a multipart
form (from a browser or with `curl -F 'file=@example.txt'`), stored in SQLite,
and shown as highlighted listings, rendered markdown, redirects (for pastes that
are a single URL) or preview images.

## Layout

- `src/` is the library, verified with Verus. Its functions carry contracts over
  a mathematical model of their data; what syntect, pulldown-cmark and png compute
  is named (and the trusted wrappers that call them say what the names stand for):
  - `text` — trimming, case folding, line splitting and HTML escaping over `Seq<char>`;
  - `listing` — the numbered HTML listing of a paste;
  - `highlight` — choosing a syntax (by file extension or by the language
    classifier's candidates) and highlighting with syntect;
  - `markdown` — rendering markdown with pulldown-cmark, code blocks highlighted;
  - `paste` — the upload form, its cleaning, expiry rules and the stored row;
  - `web` — short links, paste URLs, and how a creation is answered and a paste shown;
  - `cache` — the LRU caches of rendered pages and preview images;
  - `preview` — drawing the preview image and encoding it as PNG;
  - `error` — the error kinds and the answer each one gets.
- `app/` is the server around it: configuration, the SQLite queries, the HTTP
  handlers and HTML templates, font rasterising and the language classifier.
- `tests/` exercises the library on concrete inputs.
