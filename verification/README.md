# ratproto

AT Protocol handles and DIDs, with their rules proved in Verus.

- `src/` is the verified library:
  - `text.rs`: character classes, ASCII case folding, and splitting on a separator
    (`split_on`), with lemmas about the pieces;
  - `handle.rs`: `Handle::from_str` and the handle rules, the names used to resolve a
    handle, and laws (a handle parses back to itself; letter case does not matter, except that
    only a lower-case `at://` prefix is removed);
  - `did.rs`: `Did::from_str` and the DID rules, the identifier and the document URL, and
    laws (a DID parses back to itself, also from a `did=` TXT record);
  - `document.rs`: DID documents and `match_handle`;
  - `resolve.rs`: which TXT record gives the DID, and which answer a handle resolves to;
  - `login.rs`: the login decisions, one step per network answer;
  - `oauth.rs`: the default OAuth client metadata.
- `app/` is the web server: HTTP, DNS, JSON decoding and error messages, and the loop that
  runs the login steps.
- `tests/` runs the library on concrete inputs.
