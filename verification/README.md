# repo_graph_daemon_runtime

The decision core of the repo-graph daemon runtime, written in Verus. Every
function in `src/` carries a contract; Verus proves all of them except the
trusted wrappers listed below, whose contracts are believed.

- `src/` — the verified library: the read-time union of HTTP surfaces, the
  inference inventory and its honest empty states, the LiveGraph serving
  decisions and no-loss certificates, import readiness, index-basis drift,
  warm-cache naming, SCIP refresh inputs, request parameters and their
  defaults, quality and governance decisions, baseline marks and retention
  summaries. Module-level `lemma_*` proof functions state the library's laws
  (orderings, nothing dropped, set-only dependence, accounting identities,
  distinct reason names).
- `tests/` — executable tests of the library.
- `app/` — the unverified I/O shell: file-system walks, the producer process,
  the sandbox directory, request parameters read out of JSON, and JSON
  rendering (including the few floating-point figures).

## Trusted items

These `#[verifier::external_body]` wrappers make one outside call each; their
contracts are not proved:

| wrapper | calls | contract |
|---|---|---|
| `digest::sha256` | `sha2::Sha256::digest` | 32 bytes, equal to the named `sha256_digest` of the input |
| `digest::hex_encode` | `hex::encode` | lower-case hex, two digits per byte |
| `text::string_of` | `String: FromIterator<char>` | the string holds exactly the given characters |
| `http_surface_union::to_uppercase` | `str::to_uppercase` | the named `str_to_uppercase` of the input; ASCII case mapping on ASCII input |
| `quality::to_lowercase` | `str::to_lowercase` | the named `str_to_lowercase` of the input; ASCII case mapping on ASCII input |

The names `sha256_digest`, `str_to_uppercase` and `str_to_lowercase` are
uninterpreted spec functions: what the outside function computes is named,
not restated.
