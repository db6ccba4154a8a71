# bettercurl

A human-friendly HTTP client (`bc`). The library under `src/` holds the
client's logic, verified with Verus; `app/` is the command-line program
around it: argument parsing, the HTTP exchange, files and terminal output.

Modules of the library:

- `text`: characters of strings, white space and trimming, splitting at a
  character, decimal numerals, prefixes and substrings.
- `kv`: `key=value` / `key: value` arguments, the field maps they build, words
  of a text, joining.
- `urlencoding`, `query`: percent-encoding and the query string of a URL.
- `base64`: Base64 encoding, with its round trip, length and alphabet proved.
- `headers`: the request's header map (reqwest's `HeaderMap`, behind trusted
  wrappers) and which header names and values are accepted.
- `request`: the request that the command line describes: URL, method,
  headers, body.
- `curl`: the equivalent curl command line, with the body quoted for a shell.
- `response`: pretty-printing of JSON bodies and where a download is saved.
- `json`: the JSON objects of request bodies (serde_json, behind trusted
  wrappers).
- `assertions`, `status`, `size`: checks on a response, the colour of a status
  code, and how sizes are shown.
