# homepage

A small start page server for a home network. It serves one page, keeps the site list in one
JSON file, and fetches the icons of the listed sites so that a browser need not.

`src/` is the library, proved with Verus:

| module | what it is about |
|---|---|
| `text` | text as a sequence of characters |
| `sha1` | the digest that names a cached icon |
| `ip`, `notation`, `egress` | addresses and their text, and which of them the server may fetch from |
| `origin`, `cookie` | the host of a URL, and where the session cookie goes |
| `media` | image types, and whether bytes can be an image |
| `links` | the best icon that a page links to |
| `icon` | the job of fetching one icon, as a machine of events and actions |
| `reply`, `assets`, `store`, `startup` | what is answered, listed, kept and started with |

Proof functions whose names begin with `law_` state what holds of the library as a whole.

`app/` is the server around it: HTTP, files and requests. `tests/` runs the library.
