# wbmaker

A card maker for Shadowverse: Worlds Beyond. It renders the official card
(782×1024) and the 1920×1080 DIY product image, and serves the web front end
from a small local HTTP server.

## Layout

- `src/` — the verified library (Verus). Everything that decides rather than
  draws:
  - `markup` — the rich-text markup of the description panel (`[b]`, `[i]`,
    `【…】`/`『…』`, `[img]…[/img]`, `[hr]`) and the word/run items that line
    wrapping works on;
  - `assets` — which keys name an asset and the file that holds it, and the
    frame list as JSON;
  - `diy` — the DIY panel's decisions: section order, crest icons, signature
    and footnote rows;
  - `server` — routing, safe static paths, MIME types, percent decoding, the
    `<head>` marker and the save reply;
  - `export` — the file name an export is saved under, base64, and what the
    gallery plugin's and the save dialog's answers mean for an export;
  - `raster` — the mirrored panel texture and the alpha box blur;
  - `kerning`, `card`, `text` — the number kerning table, which numbers a card
    shows, and character helpers.
  The laws of the library are the `law_*` proof functions.
- `app/` — the unverified shell: font rasterisation and image compositing
  (floating point, `ab_glyph`, `image`), the wasm entry points, JSON
  configuration, and the `tiny_http` server loop. The asset lookups of the
  library name files relative to the asset directory; in the browser the page
  registers their bytes with `register_asset`, elsewhere they are read from
  the directory named by `WBMAKER_ASSETS` (default `assets/`).
- `tests/` — unit tests of the library.
