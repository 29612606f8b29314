# claw_code

The logic behind the `claw-code` command line: the OpenRouter model catalog,
OAuth and saved API-key credentials, and the slash-command line editor,
written in Verus with its behaviour stated as contracts and proved.

## Layout

- `src/` — the verified library.
  - `text.rs`: characters, trimming, ASCII case folding, searching, joining,
    decimal rendering and byte-wise string order.
  - `encoding.rs`: percent encoding and decoding of query components, and
    unpadded base64url.
  - `string_map.rs`, `json.rs`: an ordered string map and the JSON values
    the credential documents are made of.
  - `oauth.rs`: PKCE pairs, authorization URLs, token request forms and the
    parsing of the OAuth callback.
  - `credentials.rs`: where the credential files live and how saving,
    loading and clearing API keys and OAuth tokens changes their documents.
  - `catalog.rs`: the catalog endpoint, error replies and the order of the
    listed models.
  - `completion.rs`, `picker.rs`, `read_line.rs`: slash-command completion,
    the slash-command picker, and what each editor result leads to.
- `tests/` — tests of the library on concrete values.
- `app/` — the HTTP client, the credential files on disk and the terminal
  line editor, which call the library for every decision.
